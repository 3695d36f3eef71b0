//! Reduction passes over a face graph: path compression and leaf pruning.
//!
//! Both passes preserve the graph's symmetry, never touch an outlet node,
//! and are no-ops on already reduced graphs, which makes the combined
//! reduction idempotent.

use vstd::prelude::*;

use crate::graph::{count_edges, lemma_count_exists, lemma_count_member, Graph};
use crate::grid::{Edge, Get, Grid, Node, OUTLET};

verus! {

/// Whether the node's cell on its own grid is an outlet.
pub open spec fn is_outlet(grids: Seq<Grid<u8>>, n: Node) -> bool {
    n.grid < grids.len() && grids[n.grid as int].spec_at(n.x as int, n.y as int) == OUTLET
}

/// The node addresses a cell of one of the grids.
pub open spec fn node_in_bounds(grids: Seq<Grid<u8>>, n: Node) -> bool {
    n.grid < grids.len() && n.x < grids[n.grid as int].width && n.y < grids[n.grid as int].height
}

/// Every grid holds one value per cell.
pub open spec fn grids_wf(grids: Seq<Grid<u8>>) -> bool {
    forall|i: int| 0 <= i < grids.len() ==> (#[trigger] grids[i]).wf()
}

/// Every node of the graph addresses a cell of one of the grids.
pub open spec fn keys_bounded(g: Graph, grids: Seq<Grid<u8>>) -> bool {
    forall|n: Node| #[trigger] g.has_key(n) ==> node_in_bounds(grids, n)
}

/// No non-outlet node of degree two is left, except ones that carry a self
/// loop, which path compression must leave alone.
pub open spec fn compressed(g: Graph, grids: Seq<Grid<u8>>) -> bool {
    forall|n: Node| #[trigger] g.has_key(n) && !is_outlet(grids, n) && g.degree(n) == 2
        ==> g.edges_of(n)[0].to == n || g.edges_of(n)[1].to == n
}

/// No non-outlet node of degree one is left.
pub open spec fn cleaned(g: Graph, grids: Seq<Grid<u8>>) -> bool {
    forall|n: Node| #[trigger] g.has_key(n) && !is_outlet(grids, n) ==> g.degree(n) != 1
}

/// A sum of weights that saturates at the machine bound.
pub open spec fn sat_add(a: usize, b: usize) -> usize {
    if a + b > usize::MAX {
        usize::MAX
    } else {
        (a + b) as usize
    }
}

/// The exact effect of one path-compression step: the degree-two node
/// `node` with edges `e0` and `e1` disappears, its two mirror edges go with
/// it, and its neighbors gain a direct edge in both directions weighing the
/// (saturating) sum of the removed weights.
pub open spec fn compress_step(g0: Graph, g1: Graph, node: Node, e0: Edge, e1: Edge) -> bool {
    &&& g0.has_key(node)
    &&& g0.degree(node) == 2
    &&& g0.edges_of(node)[0] == e0
    &&& g0.edges_of(node)[1] == e1
    &&& e0.to != node
    &&& e1.to != node
    &&& !g1.has_key(node)
    &&& forall|m: Node| m != node ==> #[trigger] g1.has_key(m) == g0.has_key(m)
    &&& forall|x: Node, y: Node, v: usize| #[trigger]
        g1.edge_count(x, y, v) == g0.edge_count(x, y, v) - (if x == node {
            g0.edge_count(node, y, v) as int
        } else {
            0int
        }) - (if y == node && x == e0.to && v == e0.steps {
            1int
        } else {
            0int
        }) - (if y == node && x == e1.to && v == e1.steps {
            1int
        } else {
            0int
        }) + (if x == e0.to && y == e1.to && v == sat_add(e0.steps, e1.steps) {
            1int
        } else {
            0int
        }) + (if x == e1.to && y == e0.to && v == sat_add(e0.steps, e1.steps) {
            1int
        } else {
            0int
        })
}

/// The graph `g1` arises from `g0` by `k` path-compression steps, each on
/// a non-outlet node.
pub open spec fn compress_reach(g0: Graph, g1: Graph, grids: Seq<Grid<u8>>, k: nat) -> bool
    decreases k,
{
    if k == 0 {
        g1 == g0
    } else {
        exists|gm: Graph, node: Node, e0: Edge, e1: Edge|
            !is_outlet(grids, node) && #[trigger] compress_step(g0, gm, node, e0, e1)
                && compress_reach(gm, g1, grids, (k - 1) as nat)
    }
}

/// The graph `g1` arises from `g0` by some number of path-compression
/// steps on non-outlet nodes.
pub open spec fn compressed_from(g0: Graph, g1: Graph, grids: Seq<Grid<u8>>) -> bool {
    exists|k: nat| compress_reach(g0, g1, grids, k)
}

/// A compression chain extends by one more step.
proof fn lemma_compress_reach_extend(
    g0: Graph,
    gm: Graph,
    g1: Graph,
    grids: Seq<Grid<u8>>,
    k: nat,
    node: Node,
    e0: Edge,
    e1: Edge,
)
    requires
        compress_reach(g0, gm, grids, k),
        !is_outlet(grids, node),
        compress_step(gm, g1, node, e0, e1),
    ensures
        compress_reach(g0, g1, grids, k + 1),
    decreases k,
{
    if k == 0 {
        assert(gm == g0);
        assert(compress_reach(g1, g1, grids, 0));
        assert(compress_step(g0, g1, node, e0, e1) && compress_reach(g1, g1, grids, 0));
    } else {
        let (gm2, n2, f0, f1) = choose|gm2: Graph, n2: Node, f0: Edge, f1: Edge|
            !is_outlet(grids, n2) && #[trigger] compress_step(g0, gm2, n2, f0, f1)
                && compress_reach(gm2, gm, grids, (k - 1) as nat);
        lemma_compress_reach_extend(gm2, gm, g1, grids, (k - 1) as nat, node, e0, e1);
        assert(compress_step(g0, gm2, n2, f0, f1) && compress_reach(gm2, g1, grids, k));
    }
}

/// The exact effect of one leaf-pruning step: the degree-one node `node`
/// with single edge `e0` disappears together with the mirror edge at its
/// neighbor; a neighbor left without edges keeps its entry only when it is
/// an outlet.  A node whose single edge is a self loop just disappears.
pub open spec fn prune_step(
    g0: Graph,
    g1: Graph,
    node: Node,
    e0: Edge,
    grids: Seq<Grid<u8>>,
) -> bool {
    &&& g0.has_key(node)
    &&& g0.degree(node) == 1
    &&& g0.edges_of(node)[0] == e0
    &&& !g1.has_key(node)
    &&& if e0.to == node {
        &&& forall|m: Node| m != node ==> #[trigger] g1.has_key(m) == g0.has_key(m)
        &&& forall|x: Node, y: Node, v: usize| #[trigger]
            g1.edge_count(x, y, v) == g0.edge_count(x, y, v) - (if x == node {
                g0.edge_count(node, y, v) as int
            } else {
                0int
            })
    } else {
        &&& forall|m: Node|
            m != node && m != e0.to ==> #[trigger] g1.has_key(m) == g0.has_key(m)
        &&& (g1.has_key(e0.to) <==> (g0.degree(e0.to) != 1 || is_outlet(grids, e0.to)))
        &&& forall|x: Node, y: Node, v: usize| #[trigger]
            g1.edge_count(x, y, v) == g0.edge_count(x, y, v) - (if x == node {
                g0.edge_count(node, y, v) as int
            } else {
                0int
            }) - (if x == e0.to && y == node && v == e0.steps {
                1int
            } else {
                0int
            })
    }
}

/// The graph `g1` arises from `g0` by `k` leaf-pruning steps, each on a
/// non-outlet node.
pub open spec fn clean_reach(g0: Graph, g1: Graph, grids: Seq<Grid<u8>>, k: nat) -> bool
    decreases k,
{
    if k == 0 {
        g1 == g0
    } else {
        exists|gm: Graph, node: Node, e0: Edge|
            !is_outlet(grids, node) && #[trigger] prune_step(g0, gm, node, e0, grids)
                && clean_reach(gm, g1, grids, (k - 1) as nat)
    }
}

/// The graph `g1` arises from `g0` by some number of leaf-pruning steps on
/// non-outlet nodes.
pub open spec fn pruned_from(g0: Graph, g1: Graph, grids: Seq<Grid<u8>>) -> bool {
    exists|k: nat| clean_reach(g0, g1, grids, k)
}

/// A pruning chain extends by one more step.
proof fn lemma_clean_reach_extend(
    g0: Graph,
    gm: Graph,
    g1: Graph,
    grids: Seq<Grid<u8>>,
    k: nat,
    node: Node,
    e0: Edge,
)
    requires
        clean_reach(g0, gm, grids, k),
        !is_outlet(grids, node),
        prune_step(gm, g1, node, e0, grids),
    ensures
        clean_reach(g0, g1, grids, k + 1),
    decreases k,
{
    if k == 0 {
        assert(gm == g0);
        assert(clean_reach(g1, g1, grids, 0));
        assert(prune_step(g0, g1, node, e0, grids) && clean_reach(g1, g1, grids, 0));
    } else {
        let (gm2, n2, f0) = choose|gm2: Graph, n2: Node, f0: Edge|
            !is_outlet(grids, n2) && #[trigger] prune_step(g0, gm2, n2, f0, grids)
                && clean_reach(gm2, gm, grids, (k - 1) as nat);
        lemma_clean_reach_extend(gm2, gm, g1, grids, (k - 1) as nat, node, e0);
        assert(prune_step(g0, gm2, n2, f0, grids) && clean_reach(gm2, g1, grids, k));
    }
}

/// The count of edges in a two-element adjacency list.
proof fn lemma_count_two(s: Seq<Edge>, to: Node, w: usize)
    requires
        s.len() == 2,
    ensures
        count_edges(s, to, w) == (if s[0].to == to && s[0].steps == w {
            1int
        } else {
            0int
        }) + (if s[1].to == to && s[1].steps == w {
            1int
        } else {
            0int
        }),
{
    reveal_with_fuel(count_edges, 4);
    let d = s.drop_last();
    assert(d.len() == 1);
    assert(d.drop_last().len() == 0);
    assert(count_edges(d.drop_last(), to, w) == 0);
    assert(d.last() == s[0]);
    assert(s.last() == s[1]);
}

/// "Compress" a graph (i.e. remove all nodes that only have two neighbors
/// and connect the neighbors directly).  Weights of merged edges saturate at
/// the machine bound.
pub fn compress_graph(graph: &mut Graph, grids: &Vec<Grid<u8>>)
    requires
        old(graph).wf(),
        old(graph).symmetric(),
        grids_wf(grids@),
        keys_bounded(*old(graph), grids@),
    ensures
        final(graph).wf(),
        final(graph).symmetric(),
        compressed(*final(graph), grids@),
        forall|m: Node| #[trigger] final(graph).has_key(m) ==> old(graph).has_key(m),
        forall|m: Node|
            old(graph).has_key(m) && !(#[trigger] final(graph).has_key(m)) ==> !is_outlet(
                grids@,
                m,
            ) && old(graph).degree(m) == 2,
        forall|m: Node| #[trigger] final(graph).has_key(m) ==> final(graph).degree(m) == old(graph).degree(m),
        compressed(*old(graph), grids@) ==> *final(graph) == *old(graph),
        keys_bounded(*final(graph), grids@),
        compressed_from(*old(graph), *final(graph), grids@),
    {
    let ghost g0 = *graph;
    let ghost mut steps_done: nat = 0;
    // collect candidate nodes: degree two and not an outlet
    let mut nodes: Vec<Node> = Vec::new();
    let n_keys = graph.len();
    let mut i: usize = 0;
    while i < n_keys
        invariant
            graph.wf(),
            *graph == g0,
            grids_wf(grids@),
            keys_bounded(g0, grids@),
            n_keys == g0.entries@.len(),
            i <= n_keys,
            forall|k: int|
                0 <= k < nodes@.len() ==> g0.has_key(#[trigger] nodes@[k]) && g0.degree(nodes@[k])
                    == 2 && !is_outlet(grids@, nodes@[k]),
            forall|j: int|
                0 <= j < i && g0.degree(#[trigger] g0.key_seq()[j]) == 2 && !is_outlet(
                    grids@,
                    g0.key_seq()[j],
                ) ==> nodes@.contains(g0.key_seq()[j]),
        decreases n_keys - i,
    {
        let n = graph.node_at(i);
        proof {
            graph.lemma_key_at(i as int);
            assert(g0.has_key(n));
        }
        let ghost nodes0 = nodes@;
        let deg = graph.edges_at(i).len();
        let g = &grids[n.grid];
        let ghost is_cand = deg == 2 && !is_outlet(grids@, n);
        if deg == 2 && g.get(n.x, n.y) != OUTLET {
            nodes.push(n);
        }
        i = i + 1;
        proof {
            assert(deg == g0.degree(n));
            assert forall|j: int|
                0 <= j < i && g0.degree(#[trigger] g0.key_seq()[j]) == 2 && !is_outlet(
                    grids@,
                    g0.key_seq()[j],
                ) implies nodes@.contains(g0.key_seq()[j]) by {
                let m = g0.key_seq()[j];
                if j < i - 1 {
                    assert(nodes0.contains(m));
                    let t = choose|t: int| 0 <= t < nodes0.len() && nodes0[t] == m;
                    assert(nodes@[t] == m);
                } else {
                    assert(m == n);
                    assert(nodes@[nodes@.len() - 1] == n);
                }
            }
        }
    }

    // remove each candidate, connecting its two neighbors directly
    proof {
        assert(compress_reach(g0, *graph, grids@, 0));
    }
    let n_cand = nodes.len();
    let mut k: usize = 0;
    while k < n_cand
        invariant
            graph.wf(),
            graph.symmetric(),
            g0 == *old(graph),
            g0.wf(),
            grids_wf(grids@),
            keys_bounded(g0, grids@),
            n_cand == nodes@.len(),
            k <= n_cand,
            forall|j: int|
                0 <= j < nodes@.len() ==> g0.has_key(#[trigger] nodes@[j]) && g0.degree(nodes@[j])
                    == 2 && !is_outlet(grids@, nodes@[j]),
            forall|m: Node| #[trigger] graph.has_key(m) ==> g0.has_key(m),
            forall|m: Node|
                g0.has_key(m) && !(#[trigger] graph.has_key(m)) ==> !is_outlet(grids@, m)
                    && g0.degree(m) == 2,
            forall|m: Node| #[trigger] graph.has_key(m) ==> graph.degree(m) == g0.degree(m),
            forall|m: Node|
                #[trigger] graph.has_key(m) && !is_outlet(grids@, m) && graph.degree(m) == 2 ==> (
                exists|j: int| k <= j < nodes@.len() && nodes@[j] == m) || graph.edges_of(m)[0].to
                    == m || graph.edges_of(m)[1].to == m,
            compressed(g0, grids@) ==> *graph == g0,
            compress_reach(g0, *graph, grids@, steps_done),
        decreases n_cand - k,
    {
        let node = nodes[k];
        let ghost g_pre = *graph;
        match graph.index_of(node) {
            Some(i) => {
                proof {
                    graph.lemma_key_at(i as int);
                }
                if graph.edges_at(i).len() == 2 {
                    let e0 = graph.edges_at(i)[0];
                    let e1 = graph.edges_at(i)[1];
                    if e0.to != node && e1.to != node {
                        proof {
                            // a run on an already compressed graph never
                            // reaches this branch
                            if compressed(g0, grids@) {
                                assert(g_pre == g0);
                                assert(g0.has_key(node) && !is_outlet(grids@, node)
                                    && g0.degree(node) == 2);
                                assert(false);
                            }
                        }
                        compress_one(graph, node, e0, e1);
                        proof {
                            assert(!is_outlet(grids@, node));
                            lemma_compress_reach_extend(
                                g0,
                                g_pre,
                                *graph,
                                grids@,
                                steps_done,
                                node,
                                e0,
                                e1,
                            );
                            steps_done = steps_done + 1;
                            assert forall|m: Node|
                                #[trigger] graph.has_key(m) && !is_outlet(grids@, m)
                                    && graph.degree(m) == 2 implies (exists|j: int|
                                k + 1 <= j < nodes@.len() && nodes@[j] == m) || graph.edges_of(
                                m,
                            )[0].to == m || graph.edges_of(m)[1].to == m by {
                                assert(g_pre.has_key(m));
                                assert(g_pre.degree(m) == 2);
                                if exists|j: int| k <= j < nodes@.len() && nodes@[j] == m {
                                    let j = choose|j: int|
                                        k <= j < nodes@.len() && nodes@[j] == m;
                                    if j == k {
                                        assert(m == node);
                                        assert(!graph.has_key(node));
                                        assert(false);
                                    } else {
                                        assert(k + 1 <= j < nodes@.len() && nodes@[j] == m);
                                    }
                                }
                            }
                        }
                    } else {
                        proof {
                            lemma_shift_remaining(nodes@, k as int, *graph, grids@, node);
                        }
                    }
                } else {
                    proof {
                        assert(graph.degree(node) == g0.degree(node));
                        assert(false);
                    }
                }
            },
            None => {
                proof {
                    lemma_shift_remaining_absent(nodes@, k as int, *graph, grids@, node);
                }
            },
        }
        k = k + 1;
    }
    proof {
        assert forall|n: Node|
            #[trigger] graph.has_key(n) && !is_outlet(grids@, n) && graph.degree(n) == 2 implies
            graph.edges_of(n)[0].to == n || graph.edges_of(n)[1].to == n by {
            if exists|j: int| n_cand <= j < nodes@.len() && nodes@[j] == n {
                assert(false);
            }
        }
        assert(compressed_from(g0, *graph, grids@));
    }
}

/// After skipping the candidate at `k` because it keeps a self loop, every
/// degree-two node is still covered by the remaining candidates or by a
/// self loop.
proof fn lemma_shift_remaining(
    nodes: Seq<Node>,
    k: int,
    g: Graph,
    grids: Seq<Grid<u8>>,
    node: Node,
)
    requires
        0 <= k < nodes.len(),
        nodes[k] == node,
        g.has_key(node) ==> g.degree(node) == 2 ==> (g.edges_of(node)[0].to == node
            || g.edges_of(node)[1].to == node),
        forall|m: Node|
            #[trigger] g.has_key(m) && !is_outlet(grids, m) && g.degree(m) == 2 ==> (exists|j: int|
                k <= j < nodes.len() && nodes[j] == m) || g.edges_of(m)[0].to == m || g.edges_of(
                m,
            )[1].to == m,
    ensures
        forall|m: Node|
            #[trigger] g.has_key(m) && !is_outlet(grids, m) && g.degree(m) == 2 ==> (exists|j: int|
                k + 1 <= j < nodes.len() && nodes[j] == m) || g.edges_of(m)[0].to == m
                || g.edges_of(m)[1].to == m,
{
    assert forall|m: Node|
        #[trigger] g.has_key(m) && !is_outlet(grids, m) && g.degree(m) == 2 implies (exists|j: int|
        k + 1 <= j < nodes.len() && nodes[j] == m) || g.edges_of(m)[0].to == m || g.edges_of(
        m,
    )[1].to == m by {
        if exists|j: int| k <= j < nodes.len() && nodes[j] == m {
            let j = choose|j: int| k <= j < nodes.len() && nodes[j] == m;
            if j == k {
                assert(m == node);
            } else {
                assert(k + 1 <= j < nodes.len() && nodes[j] == m);
            }
        }
    }
}

/// Like [`lemma_shift_remaining`], for a candidate that is no longer in the
/// graph at all.
proof fn lemma_shift_remaining_absent(
    nodes: Seq<Node>,
    k: int,
    g: Graph,
    grids: Seq<Grid<u8>>,
    node: Node,
)
    requires
        0 <= k < nodes.len(),
        nodes[k] == node,
        !g.has_key(node),
        forall|m: Node|
            #[trigger] g.has_key(m) && !is_outlet(grids, m) && g.degree(m) == 2 ==> (exists|j: int|
                k <= j < nodes.len() && nodes[j] == m) || g.edges_of(m)[0].to == m || g.edges_of(
                m,
            )[1].to == m,
    ensures
        forall|m: Node|
            #[trigger] g.has_key(m) && !is_outlet(grids, m) && g.degree(m) == 2 ==> (exists|j: int|
                k + 1 <= j < nodes.len() && nodes[j] == m) || g.edges_of(m)[0].to == m
                || g.edges_of(m)[1].to == m,
{
    assert forall|m: Node|
        #[trigger] g.has_key(m) && !is_outlet(grids, m) && g.degree(m) == 2 implies (exists|j: int|
        k + 1 <= j < nodes.len() && nodes[j] == m) || g.edges_of(m)[0].to == m || g.edges_of(
        m,
    )[1].to == m by {
        if exists|j: int| k <= j < nodes.len() && nodes[j] == m {
            let j = choose|j: int| k <= j < nodes.len() && nodes[j] == m;
            if j == k {
                assert(m == node);
                assert(false);
            } else {
                assert(k + 1 <= j < nodes.len() && nodes[j] == m);
            }
        }
    }
}

/// Remove one degree-two node and connect its two neighbors directly with
/// the summed (saturating) weight.
fn compress_one(graph: &mut Graph, node: Node, e0: Edge, e1: Edge)
    requires
        old(graph).wf(),
        old(graph).symmetric(),
        old(graph).has_key(node),
        old(graph).degree(node) == 2,
        old(graph).edges_of(node)[0] == e0,
        old(graph).edges_of(node)[1] == e1,
        e0.to != node,
        e1.to != node,
    ensures
        final(graph).wf(),
        final(graph).symmetric(),
        !final(graph).has_key(node),
        forall|m: Node| m != node ==> #[trigger] final(graph).has_key(m) == old(graph).has_key(m),
        forall|m: Node| #[trigger] final(graph).has_key(m) ==> final(graph).degree(m) == old(graph).degree(m),
        forall|m: Node|
            #[trigger] final(graph).has_key(m) && old(graph).degree(m) == 2 && (old(graph).edges_of(m)[0].to == m
                || old(graph).edges_of(m)[1].to == m) ==> (final(graph).edges_of(m)[0].to == m
                || final(graph).edges_of(m)[1].to == m),
        compress_step(*old(graph), *final(graph), node, e0, e1),
{
    let ghost g0 = *graph;
    let w0 = e0.steps;
    let w1 = e1.steps;
    let merged = if w1 > usize::MAX - w0 {
        usize::MAX
    } else {
        w0 + w1
    };
    proof {
        assert(merged == sat_add(e0.steps, e1.steps));
    }
    proof {
        lemma_count_member(g0.edges_of(node), 0);
        lemma_count_member(g0.edges_of(node), 1);
        assert(g0.edge_count(node, e0.to, w0) >= 1);
        assert(g0.edge_count(node, e1.to, w1) >= 1);
        assert(g0.edge_count(e0.to, node, w0) >= 1);
        assert(g0.edge_count(e1.to, node, w1) >= 1);
    }
    let _ = graph.remove_key(node);
    let ghost g1 = *graph;
    let rb_opt = graph.remove_edge_to(e0.to, node);
    proof {
        if rb_opt.is_none() {
            assert(g1.edges_of(e0.to) == g0.edges_of(e0.to));
            lemma_count_exists(g1.edges_of(e0.to), node, w0);
            assert(false);
        }
    }
    let rb = rb_opt.unwrap();
    let ghost g2 = *graph;
    graph.push_edge(e0.to, Edge { to: e1.to, steps: merged });
    let ghost g3 = *graph;
    proof {
        assert(g1.edges_of(e0.to) == g0.edges_of(e0.to));
        lemma_rb_weight(g0, g1, g2, node, e0, e1, rb);
    }
    let rc_opt = graph.remove_edge_to(e1.to, node);
    proof {
        if rc_opt.is_none() {
            lemma_rc_missing(g0, g1, g2, g3, node, e0, e1, rb, merged);
            let j = choose|j: int|
                0 <= j < g3.edges_of(e1.to).len() && (#[trigger] g3.edges_of(e1.to)[j]).to
                    == node;
            assert(false);
        }
    }
    let rc = rc_opt.unwrap();
    let ghost g4 = *graph;
    graph.push_edge(e1.to, Edge { to: e0.to, steps: merged });
    proof {
        lemma_compress_one_sym(g0, g1, g2, g3, g4, *graph, node, e0, e1, rb, rc, merged);
    }
}

/// The first mirror removal takes the weight of the first edge, or either
/// weight when both of the removed node's edges share their target.
proof fn lemma_rb_weight(
    g0: Graph,
    g1: Graph,
    g2: Graph,
    node: Node,
    e0: Edge,
    e1: Edge,
    rb: Edge,
)
    requires
        g0.symmetric(),
        g0.degree(node) == 2,
        g0.edges_of(node)[0] == e0,
        g0.edges_of(node)[1] == e1,
        e0.to != node,
        g1.edges_of(e0.to) == g0.edges_of(e0.to),
        rb.to == node,
        exists|j: int|
            0 <= j < g1.edges_of(e0.to).len() && g1.edges_of(e0.to)[j] == rb && g2.edges_of(e0.to)
                == g1.edges_of(e0.to).remove(j),
    ensures
        e0.to != e1.to ==> rb.steps == e0.steps,
        e0.to == e1.to ==> rb.steps == e0.steps || rb.steps == e1.steps,
{
    let b = e0.to;
    let j = choose|j: int|
        0 <= j < g1.edges_of(b).len() && g1.edges_of(b)[j] == rb && g2.edges_of(b)
            == g1.edges_of(b).remove(j);
    lemma_count_member(g1.edges_of(b), j);
    assert(g0.edge_count(b, node, rb.steps) >= 1);
    assert(g0.edge_count(node, b, rb.steps) >= 1);
    lemma_count_two(g0.edges_of(node), b, rb.steps);
}

/// A mirror of the second edge of the removed node must still be present
/// when the second removal runs.
proof fn lemma_rc_missing(
    g0: Graph,
    g1: Graph,
    g2: Graph,
    g3: Graph,
    node: Node,
    e0: Edge,
    e1: Edge,
    rb: Edge,
    merged: usize,
)
    requires
        g0.symmetric(),
        g0.degree(node) == 2,
        g0.edges_of(node)[0] == e0,
        g0.edges_of(node)[1] == e1,
        e0.to != node,
        e1.to != node,
        forall|m: Node| m != node ==> #[trigger] g1.edges_of(m) == g0.edges_of(m),
        rb.to == node,
        forall|y: Node, v: usize| #[trigger]
            g2.edge_count(e0.to, y, v) == g1.edge_count(e0.to, y, v) - (if y == rb.to && v
                == rb.steps {
                1int
            } else {
                0int
            }),
        forall|m: Node| m != e0.to ==> #[trigger] g2.edges_of(m) == g1.edges_of(m),
        g3.edges_of(e0.to) == g2.edges_of(e0.to).push(Edge { to: e1.to, steps: merged }),
        forall|m: Node| m != e0.to ==> #[trigger] g3.edges_of(m) == g2.edges_of(m),
        e0.to != e1.to ==> rb.steps == e0.steps,
        e0.to == e1.to ==> rb.steps == e0.steps || rb.steps == e1.steps,
    ensures
        exists|j: int|
            0 <= j < g3.edges_of(e1.to).len() && (#[trigger] g3.edges_of(e1.to)[j]).to == node,
{
    let b = e0.to;
    let c = e1.to;
    let w0 = e0.steps;
    let w1 = e1.steps;
    lemma_count_member(g0.edges_of(node), 0);
    lemma_count_member(g0.edges_of(node), 1);
    assert(g0.edge_count(node, c, w1) >= 1);
    assert(g0.edge_count(c, node, w1) >= 1);
    if b != c {
        assert(g3.edges_of(c) == g2.edges_of(c));
        assert(g2.edges_of(c) == g1.edges_of(c));
        assert(g1.edges_of(c) == g0.edges_of(c));
        lemma_count_exists(g3.edges_of(c), node, w1);
    } else {
        lemma_count_two(g0.edges_of(node), b, w0);
        lemma_count_two(g0.edges_of(node), b, w1);
        crate::graph::lemma_count_push(g2.edges_of(b), Edge { to: c, steps: merged }, node, w0);
        crate::graph::lemma_count_push(g2.edges_of(b), Edge { to: c, steps: merged }, node, w1);
        assert(g1.edges_of(b) == g0.edges_of(b));
        if w0 == w1 {
            assert(g0.edge_count(node, b, w0) == 2);
            assert(g0.edge_count(b, node, w0) == 2);
            assert(g2.edge_count(b, node, w0) >= 1);
            assert(g3.edge_count(b, node, w0) >= 1);
            lemma_count_exists(g3.edges_of(b), node, w0);
        } else if rb.steps == w0 {
            assert(g0.edge_count(node, b, w1) >= 1);
            assert(g0.edge_count(b, node, w1) >= 1);
            assert(g2.edge_count(b, node, w1) >= 1);
            assert(g3.edge_count(b, node, w1) >= 1);
            lemma_count_exists(g3.edges_of(b), node, w1);
        } else {
            assert(g0.edge_count(node, b, w0) >= 1);
            assert(g0.edge_count(b, node, w0) >= 1);
            assert(g2.edge_count(b, node, w0) >= 1);
            assert(g3.edge_count(b, node, w0) >= 1);
            lemma_count_exists(g3.edges_of(b), node, w0);
        }
    }
}

/// The final count of any directed edge after one compression step,
/// written against the initial counts.
proof fn lemma_compress_counts(
    g0: Graph,
    g1: Graph,
    g2: Graph,
    g3: Graph,
    g4: Graph,
    g5: Graph,
    node: Node,
    e0: Edge,
    e1: Edge,
    rb: Edge,
    rc: Edge,
    merged: usize,
    x: Node,
    y: Node,
    v: usize,
)
    requires
        e0.to != node,
        e1.to != node,
        !g1.has_key(node),
        forall|m: Node| m != node ==> #[trigger] g1.edges_of(m) == g0.edges_of(m),
        g1.edges_of(node) == Seq::<Edge>::empty(),
        rb.to == node,
        forall|m: Node| m != e0.to ==> #[trigger] g2.edges_of(m) == g1.edges_of(m),
        forall|y0: Node, v0: usize| #[trigger]
            g2.edge_count(e0.to, y0, v0) == g1.edge_count(e0.to, y0, v0) - (if y0 == rb.to && v0
                == rb.steps {
                1int
            } else {
                0int
            }),
        g3.edges_of(e0.to) == g2.edges_of(e0.to).push(Edge { to: e1.to, steps: merged }),
        forall|m: Node| m != e0.to ==> #[trigger] g3.edges_of(m) == g2.edges_of(m),
        rc.to == node,
        forall|m: Node| m != e1.to ==> #[trigger] g4.edges_of(m) == g3.edges_of(m),
        forall|y0: Node, v0: usize| #[trigger]
            g4.edge_count(e1.to, y0, v0) == g3.edge_count(e1.to, y0, v0) - (if y0 == rc.to && v0
                == rc.steps {
                1int
            } else {
                0int
            }),
        g5.edges_of(e1.to) == g4.edges_of(e1.to).push(Edge { to: e0.to, steps: merged }),
        forall|m: Node| m != e1.to ==> #[trigger] g5.edges_of(m) == g4.edges_of(m),
    ensures
        g5.edge_count(x, y, v) == g0.edge_count(x, y, v) - (if x == node {
            g0.edge_count(node, y, v) as int
        } else {
            0int
        }) - (if y == node && x == e0.to && v == rb.steps {
            1int
        } else {
            0int
        }) - (if y == node && x == e1.to && v == rc.steps {
            1int
        } else {
            0int
        }) + (if x == e0.to && y == e1.to && v == merged {
            1int
        } else {
            0int
        }) + (if x == e1.to && y == e0.to && v == merged {
            1int
        } else {
            0int
        }),
{
    let b = e0.to;
    let c = e1.to;
    crate::graph::lemma_count_push(g2.edges_of(b), Edge { to: c, steps: merged }, y, v);
    crate::graph::lemma_count_push(g4.edges_of(c), Edge { to: b, steps: merged }, y, v);
    if x == node {
        assert(g5.edges_of(node) == g4.edges_of(node));
        assert(g4.edges_of(node) == g3.edges_of(node));
        assert(g3.edges_of(node) == g2.edges_of(node));
        assert(g2.edges_of(node) == g1.edges_of(node));
        assert(g5.edge_count(node, y, v) == 0);
    } else if x == b && x == c {
        // both neighbors are the same node: two removals and two pushes
        assert(g1.edge_count(x, y, v) == g0.edge_count(x, y, v));
        assert(g3.edge_count(x, y, v) == g2.edge_count(x, y, v) + (if y == c && v == merged {
            1int
        } else {
            0int
        }));
        assert(g5.edge_count(x, y, v) == g4.edge_count(x, y, v) + (if y == b && v == merged {
            1int
        } else {
            0int
        }));
    } else if x == b {
        assert(g1.edge_count(x, y, v) == g0.edge_count(x, y, v));
        assert(g3.edge_count(x, y, v) == g2.edge_count(x, y, v) + (if y == c && v == merged {
            1int
        } else {
            0int
        }));
        assert(g4.edges_of(x) == g3.edges_of(x));
        assert(g5.edges_of(x) == g4.edges_of(x));
    } else if x == c {
        assert(g1.edges_of(x) == g0.edges_of(x));
        assert(g2.edges_of(x) == g1.edges_of(x));
        assert(g3.edges_of(x) == g2.edges_of(x));
        assert(g5.edge_count(x, y, v) == g4.edge_count(x, y, v) + (if y == b && v == merged {
            1int
        } else {
            0int
        }));
    } else {
        assert(g1.edges_of(x) == g0.edges_of(x));
        assert(g2.edges_of(x) == g1.edges_of(x));
        assert(g3.edges_of(x) == g2.edges_of(x));
        assert(g4.edges_of(x) == g3.edges_of(x));
        assert(g5.edges_of(x) == g4.edges_of(x));
    }
}

/// The net effect of removing a degree-two node and joining its neighbors
/// keeps the graph symmetric and preserves the surviving degrees.
proof fn lemma_compress_one_sym(
    g0: Graph,
    g1: Graph,
    g2: Graph,
    g3: Graph,
    g4: Graph,
    g5: Graph,
    node: Node,
    e0: Edge,
    e1: Edge,
    rb: Edge,
    rc: Edge,
    merged: usize,
)
    requires
        g0.wf(),
        g0.symmetric(),
        g0.has_key(node),
        g0.degree(node) == 2,
        g0.edges_of(node)[0] == e0,
        g0.edges_of(node)[1] == e1,
        e0.to != node,
        e1.to != node,
        !g1.has_key(node),
        forall|m: Node| m != node ==> #[trigger] g1.has_key(m) == g0.has_key(m),
        forall|m: Node| m != node ==> #[trigger] g1.edges_of(m) == g0.edges_of(m),
        g1.edges_of(node) == Seq::<Edge>::empty(),
        rb.to == node,
        forall|m: Node| #[trigger] g2.has_key(m) == g1.has_key(m),
        forall|m: Node| m != e0.to ==> #[trigger] g2.edges_of(m) == g1.edges_of(m),
        exists|j: int|
            0 <= j < g1.edges_of(e0.to).len() && g1.edges_of(e0.to)[j] == rb && g2.edges_of(e0.to)
                == g1.edges_of(e0.to).remove(j),
        forall|y0: Node, v0: usize| #[trigger]
            g2.edge_count(e0.to, y0, v0) == g1.edge_count(e0.to, y0, v0) - (if y0 == rb.to && v0
                == rb.steps {
                1int
            } else {
                0int
            }),
        g3.edges_of(e0.to) == g2.edges_of(e0.to).push(Edge { to: e1.to, steps: merged }),
        forall|m: Node| m != e0.to ==> #[trigger] g3.edges_of(m) == g2.edges_of(m),
        forall|m: Node| #[trigger] g3.has_key(m) == (g2.has_key(m) || m == e0.to),
        rc.to == node,
        forall|m: Node| #[trigger] g4.has_key(m) == g3.has_key(m),
        forall|m: Node| m != e1.to ==> #[trigger] g4.edges_of(m) == g3.edges_of(m),
        exists|j: int|
            0 <= j < g3.edges_of(e1.to).len() && g3.edges_of(e1.to)[j] == rc && g4.edges_of(e1.to)
                == g3.edges_of(e1.to).remove(j),
        forall|y0: Node, v0: usize| #[trigger]
            g4.edge_count(e1.to, y0, v0) == g3.edge_count(e1.to, y0, v0) - (if y0 == rc.to && v0
                == rc.steps {
                1int
            } else {
                0int
            }),
        g5.edges_of(e1.to) == g4.edges_of(e1.to).push(Edge { to: e0.to, steps: merged }),
        forall|m: Node| m != e1.to ==> #[trigger] g5.edges_of(m) == g4.edges_of(m),
        forall|m: Node| #[trigger] g5.has_key(m) == (g4.has_key(m) || m == e1.to),
        e0.to != e1.to ==> rb.steps == e0.steps,
        e0.to == e1.to ==> rb.steps == e0.steps || rb.steps == e1.steps,
    ensures
        g5.symmetric(),
        !g5.has_key(node),
        forall|m: Node| m != node ==> #[trigger] g5.has_key(m) == g0.has_key(m),
        forall|m: Node| #[trigger] g5.has_key(m) ==> g5.degree(m) == g0.degree(m),
        forall|m: Node|
            #[trigger] g5.has_key(m) && g0.degree(m) == 2 && (g0.edges_of(m)[0].to == m
                || g0.edges_of(m)[1].to == m) ==> (g5.edges_of(m)[0].to == m || g5.edges_of(
                m,
            )[1].to == m),
        forall|x: Node, y: Node, v: usize| #[trigger]
            g5.edge_count(x, y, v) == g0.edge_count(x, y, v) - (if x == node {
                g0.edge_count(node, y, v) as int
            } else {
                0int
            }) - (if y == node && x == e0.to && v == e0.steps {
                1int
            } else {
                0int
            }) - (if y == node && x == e1.to && v == e1.steps {
                1int
            } else {
                0int
            }) + (if x == e0.to && y == e1.to && v == merged {
                1int
            } else {
                0int
            }) + (if x == e1.to && y == e0.to && v == merged {
                1int
            } else {
                0int
            }),
{
    let b = e0.to;
    let c = e1.to;
    let w0 = e0.steps;
    let w1 = e1.steps;
    lemma_count_member(g0.edges_of(node), 0);
    lemma_count_member(g0.edges_of(node), 1);
    assert(g0.edge_count(b, node, w0) >= 1);
    assert(g0.edge_count(c, node, w1) >= 1);
    assert(g0.has_key(b)) by {
        if !g0.has_key(b) {
            g0.lemma_absent_no_edges(b, node, w0);
        }
    }
    assert(g0.has_key(c)) by {
        if !g0.has_key(c) {
            g0.lemma_absent_no_edges(c, node, w1);
        }
    }
    // the weight taken by the second mirror removal
    let jc = choose|j: int|
        0 <= j < g3.edges_of(c).len() && g3.edges_of(c)[j] == rc && g4.edges_of(c)
            == g3.edges_of(c).remove(j);
    lemma_count_member(g3.edges_of(c), jc);
    assert(g3.edge_count(c, node, rc.steps) >= 1);
    if b != c {
        assert(g3.edges_of(c) == g2.edges_of(c));
        assert(g2.edges_of(c) == g1.edges_of(c));
        assert(g1.edges_of(c) == g0.edges_of(c));
        assert(g0.edge_count(c, node, rc.steps) >= 1);
        assert(g0.edge_count(node, c, rc.steps) >= 1);
        lemma_count_two(g0.edges_of(node), c, rc.steps);
        assert(rc.steps == w1);
    } else {
        crate::graph::lemma_count_push(
            g2.edges_of(b),
            Edge { to: c, steps: merged },
            node,
            rc.steps,
        );
        assert(g3.edge_count(b, node, rc.steps) == g2.edge_count(b, node, rc.steps));
        assert(g1.edges_of(b) == g0.edges_of(b));
        assert(g0.edge_count(b, node, rc.steps) >= 1 + (if rc.steps == rb.steps {
            1int
        } else {
            0int
        }));
        assert(g0.edge_count(node, b, rc.steps) >= 1 + (if rc.steps == rb.steps {
            1int
        } else {
            0int
        }));
        lemma_count_two(g0.edges_of(node), b, rc.steps);
        assert((rb.steps == w0 && rc.steps == w1) || (rb.steps == w1 && rc.steps == w0));
    }
    // the two mirror removals take exactly the two weights of the removed
    // node's edges
    assert forall|y: Node, v: usize| #[trigger]
        g0.edge_count(node, y, v) == (if y == b && v == rb.steps {
            1int
        } else {
            0int
        }) + (if y == c && v == rc.steps {
            1int
        } else {
            0int
        }) by {
        lemma_count_two(g0.edges_of(node), y, v);
    }
    // symmetry from the explicit count formula
    assert forall|x: Node, y: Node, v: usize| #[trigger]
        g5.edge_count(x, y, v) == g5.edge_count(y, x, v) by {
        lemma_compress_counts(g0, g1, g2, g3, g4, g5, node, e0, e1, rb, rc, merged, x, y, v);
        lemma_compress_counts(g0, g1, g2, g3, g4, g5, node, e0, e1, rb, rc, merged, y, x, v);
        assert(g0.edge_count(x, y, v) == g0.edge_count(y, x, v));
        assert(g0.edge_count(node, y, v) == (if y == b && v == rb.steps {
            1int
        } else {
            0int
        }) + (if y == c && v == rc.steps {
            1int
        } else {
            0int
        }));
        assert(g0.edge_count(node, x, v) == (if x == b && v == rb.steps {
            1int
        } else {
            0int
        }) + (if x == c && v == rc.steps {
            1int
        } else {
            0int
        }));
    }
    // surviving degrees are unchanged
    let jb = choose|j: int|
        0 <= j < g1.edges_of(b).len() && g1.edges_of(b)[j] == rb && g2.edges_of(b)
            == g1.edges_of(b).remove(j);
    assert forall|m: Node| #[trigger] g5.has_key(m) implies g5.degree(m) == g0.degree(m) by {
        assert(m != node);
        if m == b && m == c {
            assert(g1.edges_of(b) == g0.edges_of(b));
            assert(g2.edges_of(b).len() == g0.edges_of(b).len() - 1);
            assert(g3.edges_of(b).len() == g0.edges_of(b).len());
            assert(g4.edges_of(b).len() == g0.edges_of(b).len() - 1);
            assert(g5.edges_of(b).len() == g0.edges_of(b).len());
        } else if m == b {
            assert(g1.edges_of(b) == g0.edges_of(b));
            assert(g2.edges_of(b).len() == g0.edges_of(b).len() - 1);
            assert(g3.edges_of(b).len() == g0.edges_of(b).len());
            assert(g4.edges_of(b) == g3.edges_of(b));
            assert(g5.edges_of(b) == g4.edges_of(b));
        } else if m == c {
            assert(g3.edges_of(c) == g0.edges_of(c));
            assert(g4.edges_of(c).len() == g0.edges_of(c).len() - 1);
            assert(g5.edges_of(c).len() == g0.edges_of(c).len());
        } else {
            assert(g5.edges_of(m) == g4.edges_of(m));
            assert(g4.edges_of(m) == g3.edges_of(m));
            assert(g3.edges_of(m) == g2.edges_of(m));
            assert(g2.edges_of(m) == g1.edges_of(m));
            assert(g1.edges_of(m) == g0.edges_of(m));
        }
    }
    // self loops on surviving two-edge nodes stay in place
    assert forall|m: Node|
        #[trigger] g5.has_key(m) && g0.degree(m) == 2 && (g0.edges_of(m)[0].to == m
            || g0.edges_of(m)[1].to == m) implies (g5.edges_of(m)[0].to == m || g5.edges_of(
        m,
    )[1].to == m) by {
        assert(m != node);
        if m != b && m != c {
            assert(g5.edges_of(m) == g0.edges_of(m));
        } else {
            lemma_self_loop_survives(g0, g1, g2, g3, g4, g5, node, e0, e1, rb, rc, merged, m);
        }
    }
    // the same final counts, written against the removed node's own edge
    // weights rather than the weights the mirror removals took
    assert forall|x: Node, y: Node, v: usize| #[trigger]
        g5.edge_count(x, y, v) == g0.edge_count(x, y, v) - (if x == node {
            g0.edge_count(node, y, v) as int
        } else {
            0int
        }) - (if y == node && x == e0.to && v == e0.steps {
            1int
        } else {
            0int
        }) - (if y == node && x == e1.to && v == e1.steps {
            1int
        } else {
            0int
        }) + (if x == e0.to && y == e1.to && v == merged {
            1int
        } else {
            0int
        }) + (if x == e1.to && y == e0.to && v == merged {
            1int
        } else {
            0int
        }) by {
        lemma_compress_counts(g0, g1, g2, g3, g4, g5, node, e0, e1, rb, rc, merged, x, y, v);
        lemma_count_two(g0.edges_of(node), y, v);
        assert(g0.edge_count(node, y, v) == (if y == b && v == rb.steps {
            1int
        } else {
            0int
        }) + (if y == c && v == rc.steps {
            1int
        } else {
            0int
        }));
    }
}

/// A self loop on a surviving two-edge node is still there after its other
/// edge was redirected.
proof fn lemma_self_loop_survives(
    g0: Graph,
    g1: Graph,
    g2: Graph,
    g3: Graph,
    g4: Graph,
    g5: Graph,
    node: Node,
    e0: Edge,
    e1: Edge,
    rb: Edge,
    rc: Edge,
    merged: usize,
    m: Node,
)
    requires
        g0.wf(),
        g0.symmetric(),
        g0.has_key(node),
        g0.degree(node) == 2,
        g0.edges_of(node)[0] == e0,
        g0.edges_of(node)[1] == e1,
        e0.to != node,
        e1.to != node,
        m != node,
        g0.degree(m) == 2,
        g0.edges_of(m)[0].to == m || g0.edges_of(m)[1].to == m,
        forall|m0: Node| m0 != node ==> #[trigger] g1.edges_of(m0) == g0.edges_of(m0),
        rb.to == node,
        forall|m0: Node| m0 != e0.to ==> #[trigger] g2.edges_of(m0) == g1.edges_of(m0),
        exists|j: int|
            0 <= j < g1.edges_of(e0.to).len() && g1.edges_of(e0.to)[j] == rb && g2.edges_of(e0.to)
                == g1.edges_of(e0.to).remove(j),
        g3.edges_of(e0.to) == g2.edges_of(e0.to).push(Edge { to: e1.to, steps: merged }),
        forall|m0: Node| m0 != e0.to ==> #[trigger] g3.edges_of(m0) == g2.edges_of(m0),
        rc.to == node,
        forall|m0: Node| m0 != e1.to ==> #[trigger] g4.edges_of(m0) == g3.edges_of(m0),
        exists|j: int|
            0 <= j < g3.edges_of(e1.to).len() && g3.edges_of(e1.to)[j] == rc && g4.edges_of(e1.to)
                == g3.edges_of(e1.to).remove(j),
        g5.edges_of(e1.to) == g4.edges_of(e1.to).push(Edge { to: e0.to, steps: merged }),
        forall|m0: Node| m0 != e1.to ==> #[trigger] g5.edges_of(m0) == g4.edges_of(m0),
    ensures
        g5.edges_of(m)[0].to == m || g5.edges_of(m)[1].to == m,
{
    let s0 = g0.edges_of(m);
    let s1 = g1.edges_of(m);
    assert(s1 == s0);
    let si = choose|si: int| 0 <= si < 2 && s0[si].to == m;
    if m == e0.to {
        let j = choose|j: int|
            0 <= j < g1.edges_of(e0.to).len() && g1.edges_of(e0.to)[j] == rb && g2.edges_of(e0.to)
                == g1.edges_of(e0.to).remove(j);
        assert(g2.edges_of(m) == s1.remove(j));
        assert(j != si);
        assert(g2.edges_of(m).len() == 1);
        assert(g2.edges_of(m)[0].to == m);
        let s3 = g3.edges_of(m);
        assert(s3 == g2.edges_of(m).push(Edge { to: e1.to, steps: merged }));
        assert(s3[0].to == m);
        if m == e1.to {
            let j4 = choose|j4: int|
                0 <= j4 < g3.edges_of(e1.to).len() && g3.edges_of(e1.to)[j4] == rc && g4.edges_of(
                    e1.to,
                ) == g3.edges_of(e1.to).remove(j4);
            assert(g4.edges_of(m) == s3.remove(j4));
            assert(j4 != 0);
            assert(g4.edges_of(m)[0].to == m);
            assert(g5.edges_of(m) == g4.edges_of(m).push(Edge { to: e0.to, steps: merged }));
            assert(g5.edges_of(m)[0].to == m);
        } else {
            assert(g4.edges_of(m) == s3);
            assert(g5.edges_of(m) == s3);
            assert(g5.edges_of(m)[0].to == m);
        }
    } else {
        assert(g2.edges_of(m) == s1);
        let s3 = g3.edges_of(m);
        assert(s3 == s1);
        if m == e1.to {
            let j4 = choose|j4: int|
                0 <= j4 < g3.edges_of(e1.to).len() && g3.edges_of(e1.to)[j4] == rc && g4.edges_of(
                    e1.to,
                ) == g3.edges_of(e1.to).remove(j4);
            assert(g4.edges_of(m) == s3.remove(j4));
            assert(j4 != si);
            assert(g4.edges_of(m).len() == 1);
            assert(g4.edges_of(m)[0].to == m);
            assert(g5.edges_of(m) == g4.edges_of(m).push(Edge { to: e0.to, steps: merged }));
            assert(g5.edges_of(m)[0].to == m);
        } else {
            assert(g5.edges_of(m) == s3);
        }
    }
}

/// The count of edges in a one-element adjacency list.
proof fn lemma_count_one(s: Seq<Edge>, to: Node, w: usize)
    requires
        s.len() == 1,
    ensures
        count_edges(s, to, w) == (if s[0].to == to && s[0].steps == w {
            1int
        } else {
            0int
        }),
{
    reveal_with_fuel(count_edges, 3);
    assert(s.drop_last().len() == 0);
    assert(s.last() == s[0]);
}

/// Remove nodes with only one neighbor and which are not outlets.  The
/// removal is transitive: a neighbor left with one edge is pruned as well.
/// A node whose adjacency list becomes empty is dropped too, unless it is
/// an outlet, which always keeps its entry.
pub fn clean_graph(graph: &mut Graph, grids: &Vec<Grid<u8>>)
    requires
        old(graph).wf(),
        old(graph).symmetric(),
        grids_wf(grids@),
        keys_bounded(*old(graph), grids@),
    ensures
        final(graph).wf(),
        final(graph).symmetric(),
        cleaned(*final(graph), grids@),
        forall|m: Node| #[trigger] final(graph).has_key(m) ==> old(graph).has_key(m),
        forall|m: Node|
            old(graph).has_key(m) && !(#[trigger] final(graph).has_key(m)) ==> !is_outlet(
                grids@,
                m,
            ),
        cleaned(*old(graph), grids@) ==> *final(graph) == *old(graph),
        keys_bounded(*final(graph), grids@),
        pruned_from(*old(graph), *final(graph), grids@),
{
    let ghost g0 = *graph;
    let ghost mut steps_done: nat = 0;
    // collect the initial worklist: degree one and not an outlet
    let mut queue: Vec<Node> = Vec::new();
    let n_keys = graph.len();
    let mut i: usize = 0;
    while i < n_keys
        invariant
            graph.wf(),
            *graph == g0,
            grids_wf(grids@),
            keys_bounded(g0, grids@),
            n_keys == g0.entries@.len(),
            i <= n_keys,
            forall|k: int| 0 <= k < queue@.len() ==> g0.has_key(#[trigger] queue@[k]),
            forall|j: int|
                0 <= j < i && g0.degree(#[trigger] g0.key_seq()[j]) == 1 && !is_outlet(
                    grids@,
                    g0.key_seq()[j],
                ) ==> queue@.contains(g0.key_seq()[j]),
            cleaned(g0, grids@) ==> queue@.len() == 0,
        decreases n_keys - i,
    {
        let n = graph.node_at(i);
        proof {
            graph.lemma_key_at(i as int);
            assert(g0.has_key(n));
        }
        let ghost queue0 = queue@;
        let deg = graph.edges_at(i).len();
        let g = &grids[n.grid];
        if deg == 1 && g.get(n.x, n.y) != OUTLET {
            queue.push(n);
        }
        i = i + 1;
        proof {
            assert(deg == g0.degree(n));
            assert forall|j: int|
                0 <= j < i && g0.degree(#[trigger] g0.key_seq()[j]) == 1 && !is_outlet(
                    grids@,
                    g0.key_seq()[j],
                ) implies queue@.contains(g0.key_seq()[j]) by {
                let m = g0.key_seq()[j];
                if j < i - 1 {
                    assert(queue0.contains(m));
                    let t = choose|t: int| 0 <= t < queue0.len() && queue0[t] == m;
                    assert(queue@[t] == m);
                } else {
                    assert(m == n);
                    assert(queue@[queue@.len() - 1] == n);
                }
            }
        }
    }

    // drain the worklist
    proof {
        assert(clean_reach(g0, *graph, grids@, 0));
    }
    while queue.len() > 0
        invariant
            graph.wf(),
            graph.symmetric(),
            g0 == *old(graph),
            g0.wf(),
            grids_wf(grids@),
            keys_bounded(g0, grids@),
            forall|m: Node| #[trigger] graph.has_key(m) ==> g0.has_key(m),
            forall|m: Node|
                g0.has_key(m) && !(#[trigger] graph.has_key(m)) ==> !is_outlet(grids@, m),
            forall|m: Node|
                #[trigger] graph.has_key(m) && !is_outlet(grids@, m) && graph.degree(m) == 1
                    ==> queue@.contains(m),
            cleaned(g0, grids@) ==> (*graph == g0 && queue@.len() == 0),
            clean_reach(g0, *graph, grids@, steps_done),
        decreases graph.entries@.len(), queue@.len(),
    {
        let ghost g_pre = *graph;
        let ghost queue0 = queue@;
        let node = queue.pop().unwrap();
        proof {
            assert(queue0[queue0.len() - 1] == node);
        }
        match graph.index_of(node) {
            Some(i) => {
                proof {
                    graph.lemma_key_at(i as int);
                }
                let deg = graph.edges_at(i).len();
                let g = &grids[node.grid];
                if deg == 1 && g.get(node.x, node.y) != OUTLET {
                    let e0 = graph.edges_at(i)[0];
                    if e0.to == node {
                        // an isolated self loop: drop the node outright
                        let _ = graph.remove_key(node);
                        proof {
                            lemma_clean_self_sym(g_pre, *graph, node, e0);
                            lemma_queue_coverage(queue0, g_pre, *graph, grids@, node);
                            assert forall|x: Node, y: Node, v: usize| #[trigger]
                                graph.edge_count(x, y, v) == g_pre.edge_count(x, y, v) - (if x
                                    == node {
                                    g_pre.edge_count(node, y, v) as int
                                } else {
                                    0int
                                }) by {
                                if x == node {
                                    assert(graph.edge_count(node, y, v) == 0);
                                } else {
                                    assert(graph.edges_of(x) == g_pre.edges_of(x));
                                }
                            }
                            assert(prune_step(g_pre, *graph, node, e0, grids@));
                            lemma_clean_reach_extend(
                                g0,
                                g_pre,
                                *graph,
                                grids@,
                                steps_done,
                                node,
                                e0,
                            );
                            steps_done = steps_done + 1;
                        }
                    } else {
                        proof {
                            lemma_count_member(g_pre.edges_of(node), 0);
                            assert(g_pre.edge_count(node, e0.to, e0.steps) >= 1);
                            assert(g_pre.edge_count(e0.to, node, e0.steps) >= 1);
                        }
                        let r_opt = graph.remove_edge_to(e0.to, node);
                        proof {
                            if r_opt.is_none() {
                                lemma_count_exists(g_pre.edges_of(e0.to), node, e0.steps);
                                assert(false);
                            }
                        }
                        let ghost g1 = *graph;
                        let mut pushed_b = false;
                        proof {
                            // the mirror removal lowered the neighbor's
                            // degree by exactly one
                            assert(g1.degree(e0.to) == g_pre.degree(e0.to) - 1);
                        }
                        match graph.index_of(e0.to) {
                            Some(bi) => {
                                proof {
                                    graph.lemma_key_at(bi as int);
                                }
                                let blen = graph.edges_at(bi).len();
                                let gb = &grids[e0.to.grid];
                                if blen == 0 && gb.get(e0.to.x, e0.to.y) != OUTLET {
                                    let _ = graph.remove_key(e0.to);
                                } else if blen == 1 {
                                    queue.push(e0.to);
                                    pushed_b = true;
                                }
                                proof {
                                    assert(graph.has_key(e0.to) <==> (g_pre.degree(e0.to) != 1
                                        || is_outlet(grids@, e0.to)));
                                }
                            },
                            None => {
                                proof {
                                    assert(g1.has_key(e0.to));
                                    assert(false);
                                }
                            },
                        }
                        let ghost g2 = *graph;
                        let _ = graph.remove_key(node);
                        proof {
                            lemma_clean_step_sym(
                                g_pre,
                                g1,
                                g2,
                                *graph,
                                node,
                                e0,
                                r_opt.unwrap(),
                            );
                            assert forall|m: Node| m != node && m != e0.to implies #[trigger]
                                graph.edges_of(m) == g_pre.edges_of(m) by {
                                assert(graph.edges_of(m) == g2.edges_of(m));
                                assert(g2.edges_of(m) == g1.edges_of(m));
                                assert(g1.edges_of(m) == g_pre.edges_of(m));
                            }
                            assert forall|m: Node| m != node && m != e0.to implies #[trigger]
                                graph.has_key(m) == g_pre.has_key(m) by {
                                assert(graph.has_key(m) == g2.has_key(m));
                                assert(g2.has_key(m) == g1.has_key(m));
                                assert(g1.has_key(m) == g_pre.has_key(m));
                            }
                            lemma_queue_coverage_step(
                                queue0,
                                queue@,
                                g_pre,
                                *graph,
                                grids@,
                                node,
                                e0.to,
                                pushed_b,
                            );
                            assert(graph.has_key(e0.to) == g2.has_key(e0.to));
                            assert(prune_step(g_pre, *graph, node, e0, grids@));
                            lemma_clean_reach_extend(
                                g0,
                                g_pre,
                                *graph,
                                grids@,
                                steps_done,
                                node,
                                e0,
                            );
                            steps_done = steps_done + 1;
                        }
                    }
                } else {
                    proof {
                        assert(deg == g_pre.degree(node));
                        assert(node_in_bounds(grids@, node));
                        assert(!(g_pre.has_key(node) && !is_outlet(grids@, node)
                            && g_pre.degree(node) == 1));
                        lemma_queue_coverage(queue0, g_pre, *graph, grids@, node);
                    }
                }
            },
            None => {
                proof {
                    lemma_queue_coverage(queue0, g_pre, *graph, grids@, node);
                }
            },
        }
    }
    proof {
        assert forall|n: Node|
            #[trigger] graph.has_key(n) && !is_outlet(grids@, n) implies graph.degree(n) != 1 by {
            if graph.degree(n) == 1 {
                assert(queue@.contains(n));
            }
        }
        assert(pruned_from(g0, *graph, grids@));
    }
}

/// Popping a worklist entry whose node needs no work keeps every remaining
/// degree-one node covered by the worklist.
proof fn lemma_queue_coverage(
    queue0: Seq<Node>,
    g_pre: Graph,
    g: Graph,
    grids: Seq<Grid<u8>>,
    node: Node,
)
    requires
        queue0.len() > 0,
        queue0[queue0.len() - 1] == node,
        forall|m: Node|
            #[trigger] g_pre.has_key(m) && !is_outlet(grids, m) && g_pre.degree(m) == 1
                ==> queue0.contains(m),
        // either nothing changed and the popped node needed no work, or
        // exactly the popped node was removed
        (g == g_pre && !(g_pre.has_key(node) && !is_outlet(grids, node) && g_pre.degree(node)
            == 1)) || (!g.has_key(node) && (forall|m: Node|
            m != node ==> #[trigger] g.has_key(m) == g_pre.has_key(m)) && (forall|m: Node|
            m != node ==> #[trigger] g.edges_of(m) == g_pre.edges_of(m))),
    ensures
        forall|m: Node|
            #[trigger] g.has_key(m) && !is_outlet(grids, m) && g.degree(m) == 1
                ==> queue0.drop_last().contains(m),
{
    assert forall|m: Node|
        #[trigger] g.has_key(m) && !is_outlet(grids, m) && g.degree(m) == 1 implies
        queue0.drop_last().contains(m) by {
        assert(m != node);
        assert(g_pre.has_key(m) && g_pre.degree(m) == 1);
        assert(queue0.contains(m));
        let t = choose|t: int| 0 <= t < queue0.len() && queue0[t] == m;
        assert(t != queue0.len() - 1);
        assert(queue0.drop_last()[t] == m);
    }
}

/// After pruning a leaf, every remaining degree-one node is covered by the
/// updated worklist.
proof fn lemma_queue_coverage_step(
    queue0: Seq<Node>,
    queue1: Seq<Node>,
    g_pre: Graph,
    g3: Graph,
    grids: Seq<Grid<u8>>,
    node: Node,
    b: Node,
    pushed_b: bool,
)
    requires
        queue0.len() > 0,
        queue0[queue0.len() - 1] == node,
        b != node,
        forall|m: Node|
            #[trigger] g_pre.has_key(m) && !is_outlet(grids, m) && g_pre.degree(m) == 1
                ==> queue0.contains(m),
        !g3.has_key(node),
        forall|m: Node|
            m != node && m != b ==> #[trigger] g3.has_key(m) == g_pre.has_key(m),
        forall|m: Node| m != node && m != b ==> #[trigger] g3.edges_of(m) == g_pre.edges_of(m),
        pushed_b ==> queue1 == queue0.drop_last().push(b),
        !pushed_b ==> queue1 == queue0.drop_last() && (!g3.has_key(b) || g3.degree(b) != 1),
    ensures
        forall|m: Node|
            #[trigger] g3.has_key(m) && !is_outlet(grids, m) && g3.degree(m) == 1
                ==> queue1.contains(m),
{
    assert forall|m: Node|
        #[trigger] g3.has_key(m) && !is_outlet(grids, m) && g3.degree(m) == 1 implies
        queue1.contains(m) by {
        assert(m != node);
        if m == b {
            assert(pushed_b);
            assert(queue1[queue1.len() - 1] == b);
        } else {
            assert(g_pre.has_key(m) && g_pre.degree(m) == 1);
            assert(queue0.contains(m));
            let t = choose|t: int| 0 <= t < queue0.len() && queue0[t] == m;
            assert(t != queue0.len() - 1);
            assert(queue1[t] == m);
        }
    }
}

/// Removing an isolated node whose single edge is a self loop keeps the
/// graph symmetric.
proof fn lemma_clean_self_sym(g0: Graph, g3: Graph, node: Node, e0: Edge)
    requires
        g0.symmetric(),
        g0.degree(node) == 1,
        g0.edges_of(node)[0] == e0,
        e0.to == node,
        !g3.has_key(node),
        forall|m: Node| m != node ==> #[trigger] g3.edges_of(m) == g0.edges_of(m),
        g3.edges_of(node) == Seq::<Edge>::empty(),
    ensures
        g3.symmetric(),
{
    assert forall|x: Node, y: Node, v: usize| #[trigger]
        g3.edge_count(x, y, v) == g3.edge_count(y, x, v) by {
        lemma_count_one(g0.edges_of(node), y, v);
        lemma_count_one(g0.edges_of(node), x, v);
        if x == node && y == node {
        } else if x == node {
            assert(g3.edge_count(node, y, v) == 0);
            assert(g3.edges_of(y) == g0.edges_of(y));
            assert(g0.edge_count(y, node, v) == g0.edge_count(node, y, v));
            assert(g0.edge_count(node, y, v) == 0);
        } else if y == node {
            assert(g3.edge_count(x, node, v) == g0.edge_count(x, node, v));
            assert(g0.edge_count(x, node, v) == g0.edge_count(node, x, v));
            assert(g0.edge_count(node, x, v) == 0);
            assert(g3.edge_count(node, x, v) == 0);
        } else {
            assert(g3.edges_of(x) == g0.edges_of(x));
            assert(g3.edges_of(y) == g0.edges_of(y));
            assert(g3.edge_count(x, y, v) == g0.edge_count(x, y, v));
            assert(g3.edge_count(y, x, v) == g0.edge_count(y, x, v));
            assert(g0.edge_count(x, y, v) == g0.edge_count(y, x, v));
        }
    }
}

/// Pruning a leaf and the mirror edge at its neighbor keeps the graph
/// symmetric.
proof fn lemma_clean_step_sym(
    g0: Graph,
    g1: Graph,
    g2: Graph,
    g3: Graph,
    node: Node,
    e0: Edge,
    r: Edge,
)
    requires
        g0.wf(),
        g0.symmetric(),
        g0.has_key(node),
        g0.degree(node) == 1,
        g0.edges_of(node)[0] == e0,
        e0.to != node,
        // g1: the mirror edge at the neighbor was removed
        r.to == node,
        forall|m: Node| #[trigger] g1.has_key(m) == g0.has_key(m),
        forall|m: Node| m != e0.to ==> #[trigger] g1.edges_of(m) == g0.edges_of(m),
        exists|j: int|
            0 <= j < g0.edges_of(e0.to).len() && g0.edges_of(e0.to)[j] == r && g1.edges_of(e0.to)
                == g0.edges_of(e0.to).remove(j),
        forall|y0: Node, v0: usize| #[trigger]
            g1.edge_count(e0.to, y0, v0) == g0.edge_count(e0.to, y0, v0) - (if y0 == r.to && v0
                == r.steps {
                1int
            } else {
                0int
            }),
        // g2: the neighbor's empty entry may have been dropped
        (g2 == g1) || (!g2.has_key(e0.to) && g1.edges_of(e0.to).len() == 0 && (forall|m: Node|
            m != e0.to ==> #[trigger] g2.edges_of(m) == g1.edges_of(m)) && g2.edges_of(e0.to)
            == Seq::<Edge>::empty()),
        // g3: the leaf itself was removed
        !g3.has_key(node),
        forall|m: Node| m != node ==> #[trigger] g3.edges_of(m) == g2.edges_of(m),
        g3.edges_of(node) == Seq::<Edge>::empty(),
    ensures
        g3.symmetric(),
        forall|x: Node, y: Node, v: usize| #[trigger]
            g3.edge_count(x, y, v) == g0.edge_count(x, y, v) - (if x == node {
                g0.edge_count(node, y, v) as int
            } else {
                0int
            }) - (if x == e0.to && y == node && v == e0.steps {
                1int
            } else {
                0int
            }),
{
    let b = e0.to;
    let w0 = e0.steps;
    // the removed mirror edge carries the weight of the leaf's single edge
    let j = choose|j: int|
        0 <= j < g0.edges_of(b).len() && g0.edges_of(b)[j] == r && g1.edges_of(b)
            == g0.edges_of(b).remove(j);
    lemma_count_member(g0.edges_of(b), j);
    assert(g0.edge_count(b, node, r.steps) >= 1);
    assert(g0.edge_count(node, b, r.steps) >= 1);
    lemma_count_one(g0.edges_of(node), b, r.steps);
    assert(r.steps == w0);
    assert forall|x: Node, y: Node, v: usize| #[trigger]
        g3.edge_count(x, y, v) == g3.edge_count(y, x, v) by {
        lemma_count_one(g0.edges_of(node), y, v);
        lemma_count_one(g0.edges_of(node), x, v);
        lemma_clean_counts(g0, g1, g2, g3, node, e0, r, x, y, v);
        lemma_clean_counts(g0, g1, g2, g3, node, e0, r, y, x, v);
        assert(g0.edge_count(x, y, v) == g0.edge_count(y, x, v));
    }
    assert forall|x: Node, y: Node, v: usize| #[trigger]
        g3.edge_count(x, y, v) == g0.edge_count(x, y, v) - (if x == node {
            g0.edge_count(node, y, v) as int
        } else {
            0int
        }) - (if x == e0.to && y == node && v == e0.steps {
            1int
        } else {
            0int
        }) by {
        lemma_clean_counts(g0, g1, g2, g3, node, e0, r, x, y, v);
    }
}

/// The final count of any directed edge after one leaf pruning step.
proof fn lemma_clean_counts(
    g0: Graph,
    g1: Graph,
    g2: Graph,
    g3: Graph,
    node: Node,
    e0: Edge,
    r: Edge,
    x: Node,
    y: Node,
    v: usize,
)
    requires
        e0.to != node,
        r.to == node,
        forall|m: Node| m != e0.to ==> #[trigger] g1.edges_of(m) == g0.edges_of(m),
        forall|y0: Node, v0: usize| #[trigger]
            g1.edge_count(e0.to, y0, v0) == g0.edge_count(e0.to, y0, v0) - (if y0 == r.to && v0
                == r.steps {
                1int
            } else {
                0int
            }),
        (g2 == g1) || (!g2.has_key(e0.to) && g1.edges_of(e0.to).len() == 0 && (forall|m: Node|
            m != e0.to ==> #[trigger] g2.edges_of(m) == g1.edges_of(m)) && g2.edges_of(e0.to)
            == Seq::<Edge>::empty()),
        forall|m: Node| m != node ==> #[trigger] g3.edges_of(m) == g2.edges_of(m),
        g3.edges_of(node) == Seq::<Edge>::empty(),
    ensures
        g3.edge_count(x, y, v) == g0.edge_count(x, y, v) - (if x == node {
            g0.edge_count(node, y, v) as int
        } else {
            0int
        }) - (if x == e0.to && y == node && v == r.steps {
            1int
        } else {
            0int
        }),
{
    let b = e0.to;
    if x == node {
        assert(g3.edge_count(node, y, v) == 0);
        if x == b {
        }
    } else if x == b {
        assert(g1.edge_count(b, y, v) == g0.edge_count(b, y, v) - (if y == r.to && v == r.steps {
            1int
        } else {
            0int
        }));
        if g2 == g1 {
            assert(g3.edges_of(b) == g2.edges_of(b));
            assert(g2.edges_of(b) == g1.edges_of(b));
            assert(g3.edge_count(b, y, v) == g1.edge_count(b, y, v));
        } else {
            assert(g1.edges_of(b).len() == 0);
            assert(g1.edge_count(b, y, v) == 0);
            assert(g2.edges_of(b) == Seq::<Edge>::empty());
            assert(g3.edges_of(b) == g2.edges_of(b));
            assert(g3.edge_count(b, y, v) == 0);
            assert(g0.edge_count(b, y, v) - (if y == r.to && v == r.steps {
                1int
            } else {
                0int
            }) == 0);
        }
    } else {
        assert(g1.edges_of(x) == g0.edges_of(x));
        assert(g2.edges_of(x) == g1.edges_of(x));
        assert(g3.edges_of(x) == g2.edges_of(x));
        assert(g3.edge_count(x, y, v) == g0.edge_count(x, y, v));
    }
}

/// A graph on which both reduction passes are no-ops.
pub open spec fn reduced(g: Graph, grids: Seq<Grid<u8>>) -> bool {
    cleaned(g, grids) && compressed(g, grids)
}

/// What one run of the reducer guarantees: the result is reduced, only
/// non-outlet nodes were dropped, and an already reduced graph comes back
/// unchanged.
pub open spec fn reduce_rel(g0: Graph, g1: Graph, grids: Seq<Grid<u8>>) -> bool {
    &&& g1.wf()
    &&& g1.symmetric()
    &&& reduced(g1, grids)
    &&& forall|m: Node| #[trigger] g1.has_key(m) ==> g0.has_key(m)
    &&& forall|m: Node| g0.has_key(m) && !(#[trigger] g1.has_key(m)) ==> !is_outlet(grids, m)
    &&& (reduced(g0, grids) ==> g1 == g0)
}

/// Reduce a graph: prune the dead ends, then compress the corridors.
pub fn reduce_graph(graph: &mut Graph, grids: &Vec<Grid<u8>>)
    requires
        old(graph).wf(),
        old(graph).symmetric(),
        grids_wf(grids@),
        keys_bounded(*old(graph), grids@),
    ensures
        reduce_rel(*old(graph), *final(graph), grids@),
        keys_bounded(*final(graph), grids@),
        exists|gm: Graph|
            #[trigger] pruned_from(*old(graph), gm, grids@) && compressed_from(
                gm,
                *final(graph),
                grids@,
            ),
{
    let ghost g0 = *graph;
    clean_graph(graph, grids);
    let ghost g_mid = *graph;
    proof {
        assert forall|n: Node| #[trigger] g_mid.has_key(n) implies node_in_bounds(grids@, n) by {
            assert(g0.has_key(n));
        }
    }
    compress_graph(graph, grids);
    proof {
        // leaf pruning left no degree-one node, and path compression keeps
        // every surviving degree, so the result is cleaned as well
        assert forall|n: Node|
            #[trigger] graph.has_key(n) && !is_outlet(grids@, n) implies graph.degree(n) != 1 by {
            assert(g_mid.has_key(n));
            assert(graph.degree(n) == g_mid.degree(n));
        }
        if reduced(g0, grids@) {
            assert(g_mid == g0);
            assert(*graph == g_mid);
        }
        assert(pruned_from(g0, g_mid, grids@) && compressed_from(g_mid, *graph, grids@));
    }
}

/// Reducing a reduced graph changes nothing: the reducer is idempotent.
pub proof fn lemma_reduce_idempotent(g0: Graph, g1: Graph, g2: Graph, grids: Seq<Grid<u8>>)
    requires
        reduce_rel(g0, g1, grids),
        reduce_rel(g1, g2, grids),
    ensures
        g2 == g1,
{
}

/// Reduction never deletes an outlet: the outlet nodes present before and
/// after one reduction are the same.
pub proof fn lemma_reduce_preserves_outlets(g0: Graph, g1: Graph, grids: Seq<Grid<u8>>)
    requires
        reduce_rel(g0, g1, grids),
    ensures
        forall|m: Node| is_outlet(grids, m) ==> (#[trigger] g1.has_key(m) <==> g0.has_key(m)),
{
    assert forall|m: Node| is_outlet(grids, m) implies (#[trigger] g1.has_key(m) <==> g0.has_key(
        m,
    )) by {
        if g0.has_key(m) && !g1.has_key(m) {
            assert(!is_outlet(grids, m));
        }
    }
}

} // verus!
