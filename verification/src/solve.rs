//! The full cube-folding pipeline, from six grids to the two answers.

use vstd::prelude::*;

use crate::assemble::{get_connections, get_cube_configurations};
use crate::builder::{convert_to_graph, face_node};
use crate::cube::Side;
use crate::forest::{connected, has_wwalk, single_mst};
use crate::graph::Graph;
use crate::grid::{Get, Grid, Node, OPEN, OUTLET, WALL};
use crate::reduce::{clean_graph, compress_graph, grids_wf, keys_bounded, node_in_bounds};

verus! {

/// Why the solver rejected its input or found no answer.
#[derive(Clone, Copy, PartialEq, Eq, Structural, Debug)]
pub enum SolveError {
    /// The input is outside the supported domain: not exactly six square
    /// grids of one common size, an unknown symbol, or a measure beyond the
    /// machine range.
    MalformedInput,
    /// A face does not hold two reachable outlets.
    NoOutletFound,
    /// No way of folding the six faces aligns all adjacent edges.
    NoValidAssembly,
    /// No assembly collapses into a single spanning tree.
    AmbiguousSpanningForest,
}

/// A grid whose cells are all walls, floors or outlets.
pub open spec fn valid_grid(g: Grid<u8>) -> bool {
    &&& g.wf()
    &&& forall|i: int|
        0 <= i < g.grid@.len() ==> (#[trigger] g.grid@[i] == WALL || g.grid@[i] == OPEN
            || g.grid@[i] == OUTLET)
}

/// Check that a grid is well formed and uses only the three cell symbols.
pub fn check_grid(g: &Grid<u8>) -> (r: bool)
    ensures
        r == valid_grid(*g),
{
    let n = g.grid.len();
    // the backing vector must hold exactly width * height cells
    if g.height == 0 || g.width == 0 {
        if n != 0 {
            return false;
        }
        proof {
            assert(g.width * g.height == 0) by (nonlinear_arith)
                requires
                    g.width == 0 || g.height == 0,
            ;
        }
    } else {
        if n % g.height != 0 || n / g.height != g.width {
            proof {
                if g.wf() {
                    assert((g.width * g.height) % (g.height as int) == 0 && (g.width * g.height)
                        / (g.height as int) == g.width) by (nonlinear_arith)
                        requires
                            g.height > 0,
                    ;
                }
            }
            return false;
        }
        proof {
            assert(g.grid@.len() == g.width * g.height) by (nonlinear_arith)
                requires
                    g.height > 0,
                    (g.grid@.len() as int) % (g.height as int) == 0,
                    (g.grid@.len() as int) / (g.height as int) == g.width,
            ;
        }
    }
    let mut i: usize = 0;
    while i < n
        invariant
            n == g.grid@.len(),
            i <= n,
            forall|j: int|
                0 <= j < i ==> (#[trigger] g.grid@[j] == WALL || g.grid@[j] == OPEN || g.grid@[j]
                    == OUTLET),
        decreases n - i,
    {
        let c = g.grid[i];
        if c != WALL && c != OPEN && c != OUTLET {
            return false;
        }
        i = i + 1;
    }
    true
}

/// The first two outlet cells of a grid, in scan order.
fn find_outlets(grid: &Grid<u8>, gi: usize) -> (r: Option<(Node, Node)>)
    requires
        grid.wf(),
    ensures
        match r {
            Some((a, b)) => a.grid == gi && b.grid == gi && a.x < grid.width && a.y < grid.height
                && b.x < grid.width && b.y < grid.height && a != b && grid.spec_at(
                a.x as int,
                a.y as int,
            ) == OUTLET && grid.spec_at(b.x as int, b.y as int) == OUTLET,
            None => true,
        },
{
    let mut first: Option<Node> = Option::None;
    let mut y: usize = 0;
    while y < grid.height
        invariant
            grid.wf(),
            y <= grid.height,
            match first {
                Some(n) => n.grid == gi && n.x < grid.width && n.y < grid.height && grid.spec_at(
                    n.x as int,
                    n.y as int,
                ) == OUTLET,
                None => true,
            },
        decreases grid.height - y,
    {
        let mut x: usize = 0;
        while x < grid.width
            invariant
                grid.wf(),
                y < grid.height,
                x <= grid.width,
                match first {
                    Some(n) => n.grid == gi && n.x < grid.width && n.y < grid.height
                        && grid.spec_at(n.x as int, n.y as int) == OUTLET,
                    None => true,
                },
            decreases grid.width - x,
        {
            if grid.get(x, y) == OUTLET {
                match first {
                    Option::None => {
                        first = Option::Some(Node { x, y, grid: gi });
                    },
                    Option::Some(f) => {
                        if !(f.x == x && f.y == y) {
                            return Option::Some((f, Node { x, y, grid: gi }));
                        }
                    },
                }
            }
            x = x + 1;
        }
        y = y + 1;
    }
    Option::None
}

/// The distance from `a` to every node, by repeated relaxation of all
/// edges.  Returns the distance entry for `b`.
fn shortest_path(graph: &Graph, a: Node, b: Node) -> (r: Option<usize>)
    requires
        graph.wf(),
        graph.symmetric(),
        graph.has_key(a),
    ensures
        r matches Some(d) ==> has_wwalk(*graph, a, b, d),
        r is Some ==> connected(*graph, a, b),
{
    let ghost g = *graph;
    let n = graph.len();
    let mut dist: Vec<Option<usize>> = Vec::new();
    let mut i: usize = 0;
    while i < n
        invariant
            graph.wf(),
            g == *graph,
            n == graph.entries@.len(),
            i <= n,
            dist@.len() == i,
            forall|t: int|
                0 <= t < i && (#[trigger] dist@[t]) is Some ==> has_wwalk(
                    g,
                    a,
                    g.key_seq()[t],
                    dist@[t]->Some_0,
                ),
        decreases n - i,
    {
        let node = graph.node_at(i);
        if node == a {
            proof {
                graph.lemma_key_at(i as int);
                let p0 = seq![a];
                let ws0 = Seq::<usize>::empty();
                assert(crate::forest::is_wwalk(g, p0, ws0, a, a));
                assert(crate::forest::wsum(ws0) == 0);
                assert(has_wwalk(g, a, a, 0));
            }
            dist.push(Option::Some(0));
        } else {
            dist.push(Option::None);
        }
        i = i + 1;
    }
    // relax every edge once per node
    let mut round: usize = 0;
    while round < n
        invariant
            graph.wf(),
            graph.symmetric(),
            g == *graph,
            n == graph.entries@.len(),
            round <= n,
            dist@.len() == n,
            forall|t: int|
                0 <= t < n && (#[trigger] dist@[t]) is Some ==> has_wwalk(
                    g,
                    a,
                    g.key_seq()[t],
                    dist@[t]->Some_0,
                ),
        decreases n - round,
    {
        let mut u: usize = 0;
        while u < n
            invariant
                graph.wf(),
                graph.symmetric(),
                g == *graph,
                n == graph.entries@.len(),
                u <= n,
                dist@.len() == n,
                forall|t: int|
                    0 <= t < n && (#[trigger] dist@[t]) is Some ==> has_wwalk(
                        g,
                        a,
                        g.key_seq()[t],
                        dist@[t]->Some_0,
                    ),
            decreases n - u,
        {
            let du = dist[u];
            match du {
                Option::Some(d) => {
                    let from = graph.node_at(u);
                    proof {
                        graph.lemma_key_at(u as int);
                        assert(has_wwalk(g, a, from, d));
                    }
                    let n_edges = graph.edges_at(u).len();
                    let mut j: usize = 0;
                    while j < n_edges
                        invariant
                            graph.wf(),
                            graph.symmetric(),
                            g == *graph,
                            n == graph.entries@.len(),
                            u < n,
                            graph.entries@[u as int].0 == from,
                            g.edges_of(from) == graph.entries@[u as int].1@,
                            n_edges == g.edges_of(from).len(),
                            has_wwalk(g, a, from, d),
                            du == Option::<usize>::Some(d),
                            j <= n_edges,
                            dist@.len() == n,
                            forall|t: int|
                                0 <= t < n && (#[trigger] dist@[t]) is Some ==> has_wwalk(
                                    g,
                                    a,
                                    g.key_seq()[t],
                                    dist@[t]->Some_0,
                                ),
                        decreases n_edges - j,
                    {
                        let e = graph.edges_at(u)[j];
                        if e.steps <= usize::MAX - d {
                            let nd = d + e.steps;
                            match graph.index_of(e.to) {
                                Option::Some(vi) => {
                                    let better = match dist[vi] {
                                        Option::Some(old_d) => nd < old_d,
                                        Option::None => true,
                                    };
                                    if better {
                                        proof {
                                            crate::graph::lemma_count_member(
                                                g.edges_of(from),
                                                j as int,
                                            );
                                            graph.lemma_key_at(vi as int);
                                            let (p, ws) = choose|p: Seq<Node>, ws: Seq<usize>|
                                                crate::forest::is_wwalk(g, p, ws, a, from)
                                                    && crate::forest::wsum(ws) == d;
                                            let p2 = p.push(e.to);
                                            let ws2 = ws.push(e.steps);
                                            crate::forest::lemma_wsum_push(ws, e.steps);
                                            assert(g.edge_count(from, e.to, e.steps) >= 1);
                                            assert(crate::forest::is_wwalk(g, p2, ws2, a, e.to))
                                                by {
                                                assert(p2[p2.len() - 1] == e.to);
                                                assert forall|k: int|
                                                    0 <= k < ws2.len() implies g.edge_count(
                                                    p2[k],
                                                    p2[k + 1],
                                                    #[trigger] ws2[k],
                                                ) >= 1 by {
                                                    if k < ws.len() {
                                                        assert(p2[k] == p[k]);
                                                        assert(p2[k + 1] == p[k + 1]);
                                                        assert(ws2[k] == ws[k]);
                                                    } else {
                                                        assert(p2[k] == p[p.len() - 1]);
                                                        assert(p2[k + 1] == e.to);
                                                        assert(ws2[k] == e.steps);
                                                    }
                                                }
                                            }
                                            assert(has_wwalk(g, a, e.to, nd));
                                        }
                                        dist[vi] = Option::Some(nd);
                                    }
                                },
                                Option::None => {},
                            }
                        }
                        j = j + 1;
                    }
                },
                Option::None => {},
            }
            u = u + 1;
        }
        round = round + 1;
    }
    match graph.index_of(b) {
        Option::Some(bi) => {
            proof {
                if dist@[bi as int] is Some {
                    graph.lemma_key_at(bi as int);
                    crate::forest::lemma_wwalk_connected(g, a, b, dist@[bi as int]->Some_0);
                }
            }
            dist[bi]
        },
        Option::None => Option::None,
    }
}

/// Union disjoint per-face graphs into one graph over all faces.
fn merge_graphs(graphs: &Vec<Graph>) -> (r: Graph)
    requires
        forall|i: int| 0 <= i < graphs@.len() ==> (#[trigger] graphs@[i]).wf(),
        forall|i: int| 0 <= i < graphs@.len() ==> (#[trigger] graphs@[i]).symmetric(),
        forall|i: int, n: Node|
            0 <= i < graphs@.len() && #[trigger] graphs@[i].has_key(n) ==> n.grid == i,
    ensures
        r.wf(),
        r.symmetric(),
        forall|n: Node|
            #[trigger] r.has_key(n) <==> (exists|i: int|
                0 <= i < graphs@.len() && (#[trigger] graphs@[i]).has_key(n)),
        forall|i: int, n: Node|
            0 <= i < graphs@.len() && #[trigger] graphs@[i].has_key(n) ==> r.edges_of(n)
                == graphs@[i].edges_of(n),
{
    let mut r = Graph::new();
    let n_graphs = graphs.len();
    let mut gi: usize = 0;
    while gi < n_graphs
        invariant
            n_graphs == graphs@.len(),
            forall|i: int| 0 <= i < n_graphs ==> (#[trigger] graphs@[i]).wf(),
            forall|i: int, n: Node|
                0 <= i < n_graphs && #[trigger] graphs@[i].has_key(n) ==> n.grid == i,
            gi <= n_graphs,
            r.wf(),
            forall|n: Node|
                #[trigger] r.has_key(n) <==> (exists|i: int|
                    0 <= i < gi && (#[trigger] graphs@[i]).has_key(n)),
            forall|i: int, n: Node|
                0 <= i < gi && #[trigger] graphs@[i].has_key(n) ==> r.edges_of(n)
                    == graphs@[i].edges_of(n),
        decreases n_graphs - gi,
    {
        let face = &graphs[gi];
        let n_keys = face.len();
        let mut k: usize = 0;
        while k < n_keys
            invariant
                n_graphs == graphs@.len(),
                gi < n_graphs,
                forall|i: int| 0 <= i < n_graphs ==> (#[trigger] graphs@[i]).wf(),
                forall|i: int, n: Node|
                    0 <= i < n_graphs && #[trigger] graphs@[i].has_key(n) ==> n.grid == i,
                *face == graphs@[gi as int],
                n_keys == face.entries@.len(),
                k <= n_keys,
                r.wf(),
                forall|n: Node|
                    #[trigger] r.has_key(n) <==> ((exists|i: int|
                        0 <= i < gi && (#[trigger] graphs@[i]).has_key(n)) || (exists|t: int|
                        0 <= t < k && face.key_seq()[t] == n)),
                forall|i: int, n: Node|
                    0 <= i < gi && #[trigger] graphs@[i].has_key(n) ==> r.edges_of(n)
                        == graphs@[i].edges_of(n),
                forall|t: int|
                    0 <= t < k ==> r.edges_of(#[trigger] face.key_seq()[t]) == face.edges_of(
                        face.key_seq()[t],
                    ),
            decreases n_keys - k,
        {
            let from = face.node_at(k);
            proof {
                face.lemma_key_at(k as int);
                assert(graphs@[gi as int].has_key(from));
                assert(from.grid == gi);
                // the node is new to the merged graph
                if r.has_key(from) {
                    if exists|i: int| 0 <= i < gi && (#[trigger] graphs@[i]).has_key(from) {
                        let i = choose|i: int|
                            0 <= i < gi && (#[trigger] graphs@[i]).has_key(from);
                        assert(from.grid == i);
                        assert(false);
                    } else {
                        let t = choose|t: int| 0 <= t < k && face.key_seq()[t] == from;
                        assert(face.key_seq()[t] == face.key_seq()[k as int]);
                        assert(false);
                    }
                }
            }
            let ghost r0 = r;
            let n_edges = face.edges_at(k).len();
            let mut j: usize = 0;
            while j < n_edges
                invariant
                    n_graphs == graphs@.len(),
                    gi < n_graphs,
                    *face == graphs@[gi as int],
                    face.wf(),
                    k < face.entries@.len(),
                    face.entries@[k as int].0 == from,
                    face.edges_of(from) == face.entries@[k as int].1@,
                    n_edges == face.edges_of(from).len(),
                    j <= n_edges,
                    r.wf(),
                    r.edges_of(from) == face.edges_of(from).subrange(0, j as int),
                    r.has_key(from) || j == 0,
                    forall|m: Node| m != from ==> #[trigger] r.edges_of(m) == r0.edges_of(m),
                    forall|m: Node| m != from ==> #[trigger] r.has_key(m) == r0.has_key(m),
                    !r0.has_key(from),
                decreases n_edges - j,
            {
                let e = face.edges_at(k)[j];
                proof {
                    assert(face.edges_of(from).subrange(0, j as int).push(e) =~= face.edges_of(
                        from,
                    ).subrange(0, j as int + 1));
                }
                r.push_edge(from, e);
                j = j + 1;
            }
            if n_edges == 0 {
                // a node with no edges still keeps its entry
                proof {
                    assert(face.edges_of(from).subrange(0, 0) =~= Seq::<
                        crate::grid::Edge,
                    >::empty());
                }
                r.push_edge(
                    from,
                    crate::grid::Edge { to: from, steps: 0 },
                );
                let ghost r1 = r;
                let removed = r.remove_edge_to(from, from);
                proof {
                    assert(r1.edges_of(from).len() == 1);
                    assert(r1.edges_of(from)[0].to == from);
                    if removed is None {
                        assert(false);
                    }
                    let j = choose|j: int|
                        0 <= j < r1.edges_of(from).len() && r1.edges_of(from)[j]
                            == removed->Some_0 && r.edges_of(from) == r1.edges_of(from).remove(j);
                    assert(j == 0);
                    assert(r.edges_of(from) =~= face.edges_of(from));
                }
            }
            proof {
                assert(face.edges_of(from).subrange(0, n_edges as int) =~= face.edges_of(from));
                assert(r.edges_of(from) == face.edges_of(from));
                assert forall|n: Node|
                    #[trigger] r.has_key(n) <==> ((exists|i: int|
                        0 <= i < gi && (#[trigger] graphs@[i]).has_key(n)) || (exists|t: int|
                        0 <= t < k + 1 && face.key_seq()[t] == n)) by {
                    if r.has_key(n) {
                        if n == from {
                            assert(face.key_seq()[k as int] == from);
                        } else {
                            assert(r0.has_key(n));
                        }
                    } else {
                        assert(!r0.has_key(n) && n != from);
                    }
                }
            }
            k = k + 1;
        }
        proof {
            assert forall|n: Node|
                #[trigger] r.has_key(n) <==> (exists|i: int|
                    0 <= i < gi + 1 && (#[trigger] graphs@[i]).has_key(n)) by {
                if r.has_key(n) {
                    if exists|i: int| 0 <= i < gi && (#[trigger] graphs@[i]).has_key(n) {
                    } else {
                        let t = choose|t: int|
                            0 <= t < face.entries@.len() && face.key_seq()[t] == n;
                        face.lemma_key_at(t);
                        assert(graphs@[gi as int].has_key(n));
                    }
                }
                if exists|i: int| 0 <= i < gi + 1 && (#[trigger] graphs@[i]).has_key(n) {
                    let i = choose|i: int| 0 <= i < gi + 1 && (#[trigger] graphs@[i]).has_key(n);
                    if i < gi {
                    } else {
                        graphs@[gi as int].lemma_has_key_index(n);
                        let t = graphs@[gi as int].key_index(n);
                        assert(face.key_seq()[t] == n);
                    }
                }
            }
            assert forall|i: int, n: Node|
                0 <= i < gi + 1 && #[trigger] graphs@[i].has_key(n) implies r.edges_of(n)
                    == graphs@[i].edges_of(n) by {
                if i == gi {
                    graphs@[gi as int].lemma_has_key_index(n);
                    let t = graphs@[gi as int].key_index(n);
                    assert(face.key_seq()[t] == n);
                }
            }
        }
        gi = gi + 1;
    }
    proof {
        // symmetry of the union follows from the per-face symmetry and the
        // disjointness of the key spaces
        assert forall|a: Node, b: Node, w: usize| #[trigger]
            r.edge_count(a, b, w) == r.edge_count(b, a, w) by {
            lemma_merge_symmetric(r, graphs@, a, b, w);
            lemma_merge_symmetric(r, graphs@, b, a, w);
        }
    }
    r
}

/// In the merged graph, the count of any directed edge equals its count in
/// the one face graph that owns the source node.
proof fn lemma_merge_symmetric(r: Graph, graphs: Seq<Graph>, a: Node, b: Node, w: usize)
    requires
        forall|i: int| 0 <= i < graphs.len() ==> (#[trigger] graphs[i]).symmetric(),
        forall|i: int, n: Node|
            0 <= i < graphs.len() && #[trigger] graphs[i].has_key(n) ==> n.grid == i,
        forall|n: Node|
            #[trigger] r.has_key(n) <==> (exists|i: int|
                0 <= i < graphs.len() && (#[trigger] graphs[i]).has_key(n)),
        forall|i: int, n: Node|
            0 <= i < graphs.len() && #[trigger] graphs[i].has_key(n) ==> r.edges_of(n)
                == graphs[i].edges_of(n),
    ensures
        r.edge_count(a, b, w) >= 1 ==> r.edge_count(b, a, w) >= r.edge_count(a, b, w),
{
    if r.edge_count(a, b, w) >= 1 {
        assert(r.has_key(a)) by {
            if !r.has_key(a) {
                r.lemma_absent_no_edges(a, b, w);
            }
        }
        let i = choose|i: int| 0 <= i < graphs.len() && (#[trigger] graphs[i]).has_key(a);
        assert(r.edges_of(a) == graphs[i].edges_of(a));
        assert(graphs[i].edge_count(a, b, w) == r.edge_count(a, b, w));
        assert(graphs[i].edge_count(b, a, w) == graphs[i].edge_count(a, b, w));
        assert(graphs[i].has_key(b)) by {
            if !graphs[i].has_key(b) {
                graphs[i].lemma_absent_no_edges(b, a, w);
            }
        }
        assert(r.edges_of(b) == graphs[i].edges_of(b));
        assert(r.edge_count(b, a, w) == graphs[i].edge_count(b, a, w));
    }
}

/// The product of a sequence of per-face distances.
pub open spec fn prod(ds: Seq<usize>) -> int
    decreases ds.len(),
{
    if ds.len() == 0 {
        1
    } else {
        prod(ds.drop_last()) * (ds.last() as int)
    }
}

/// Multiplying in one more factor.
proof fn lemma_prod_push(ds: Seq<usize>, d: usize)
    ensures
        prod(ds.push(d)) == prod(ds) * (d as int),
{
    assert(ds.push(d).drop_last() =~= ds);
    assert(ds.push(d).last() == d);
}

/// A cell of face `gi` holding an outlet.
pub open spec fn outlet_cell(grid: Grid<u8>, gi: usize, n: Node) -> bool {
    n.grid == gi && n.x < grid.width && n.y < grid.height && grid.spec_at(n.x as int, n.y as int)
        == OUTLET
}

/// The face contributes the factor `d`: some graph built from the face
/// alone holds a walk of total weight `d` between two distinct outlet
/// cells.
pub open spec fn face_factor(grid: Grid<u8>, gi: usize, d: usize) -> bool {
    exists|g: Graph, a: Node, b: Node|
        crate::builder::face_graph(g, grid, gi) && outlet_cell(grid, gi, a) && outlet_cell(
            grid,
            gi,
            b,
        ) && a != b && #[trigger] has_wwalk(g, a, b, d)
}

/// One factor sequence witnessing the first answer.
pub open spec fn part1_witness(grids: Seq<Grid<u8>>, v: usize, ds: Seq<usize>) -> bool {
    &&& ds.len() == grids.len()
    &&& v == prod(ds)
    &&& forall|i: int| 0 <= i < grids.len() ==> face_factor(grids[i], i as usize, #[trigger] ds[i])
}

/// The first answer: the product of one such factor per face.
pub open spec fn part1_spec(grids: Seq<Grid<u8>>, v: usize) -> bool {
    exists|ds: Seq<usize>| #[trigger] part1_witness(grids, v, ds)
}

/// A side derived from a face graph: the four canonical signatures of the
/// graph's boundary nodes.
pub open spec fn side_from_graph(side: Side, g: Graph, width: int, height: int) -> bool {
    &&& side.signatures@.len() == 4
    &&& side@.len() == 4
    &&& forall|i: int| 0 <= i < 4 ==> crate::cube::wf_sig(#[trigger] side@[i])
    &&& side@[0].width == width
    &&& side@[1].width == height
    &&& side@[2].width == width
    &&& side@[3].width == height
    &&& forall|i: int, n: Node|
        0 <= i < 4 ==> ((#[trigger] side@[i].nodes.contains(n)) <==> (g.has_key(n)
            && crate::cube::on_edge(crate::cube::dir_of(i), n, width, height)))
    &&& forall|i: int, k: int|
        0 <= i < 4 && 0 <= k < side@[i].nodes.len() ==> #[trigger] side@[i].positions[k]
            == crate::cube::edge_pos(crate::cube::dir_of(i), side@[i].nodes[k], width, height)
}

/// The merged pipeline graph: it holds exactly the face graphs' nodes and
/// the connection endpoints, keeps every face edge (and adds nothing at
/// other weights), and carries one unit edge in each direction per
/// reported connection pair.
pub open spec fn merged_with_connections(
    full: Graph,
    graphs: Seq<Graph>,
    conns: Seq<(Node, Node)>,
) -> bool {
    &&& full.wf()
    &&& full.symmetric()
    &&& forall|m: Node|
        #[trigger] full.has_key(m) ==> (exists|i: int|
            0 <= i < graphs.len() && (#[trigger] graphs[i]).has_key(m)) || (exists|t: int|
            0 <= t < conns.len() && (m == (#[trigger] conns[t]).0 || m == conns[t].1))
    &&& forall|i: int, m: Node|
        0 <= i < graphs.len() && #[trigger] graphs[i].has_key(m) ==> full.has_key(m)
    &&& forall|i: int, m: Node, b: Node, wt: usize|
        0 <= i < graphs.len() && graphs[i].has_key(m) && wt != 1 ==> full.edge_count(m, b, wt)
            == #[trigger] graphs[i].edge_count(m, b, wt)
    &&& forall|i: int, m: Node, b: Node, wt: usize|
        0 <= i < graphs.len() && graphs[i].has_key(m) ==> full.edge_count(m, b, wt)
            >= #[trigger] graphs[i].edge_count(m, b, wt)
    &&& forall|t: int|
        0 <= t < conns.len() ==> full.edge_count((#[trigger] conns[t]).0, conns[t].1, 1) >= 1
            && full.edge_count(conns[t].1, conns[t].0, 1) >= 1
}

/// One full chain of evidence for the second answer: face graphs built
/// from these six grids and compressed, their sides, a valid assembly,
/// the merged graph with the assembly's connections, its reduction, and a
/// spanning tree of the result whose weight gives the answer.
pub open spec fn part2_witness(
    grids: Seq<Grid<u8>>,
    v: usize,
    graphs0: Seq<Graph>,
    graphs: Seq<Graph>,
    sides: Seq<Side>,
    cfg: Seq<Seq<crate::cube::SigView>>,
    full: Graph,
    g1: Graph,
    g2: Graph,
    w: usize,
) -> bool {
    &&& grids.len() == 6
    &&& graphs0.len() == 6
    &&& graphs.len() == 6
    &&& sides.len() == 6
    &&& forall|i: int|
        0 <= i < 6 ==> crate::builder::built_face(#[trigger] graphs0[i], grids[i], i as usize)
    &&& forall|i: int|
        0 <= i < 6 ==> crate::reduce::compressed_from(#[trigger] graphs0[i], graphs[i], grids)
    &&& forall|i: int|
        0 <= i < 6 ==> side_from_graph(
            #[trigger] sides[i],
            graphs[i],
            grids[0].width as int,
            grids[0].height as int,
        )
    &&& crate::assemble::valid_assembly(cfg, sides)
    &&& merged_with_connections(full, graphs, crate::assemble::conn_pairs(cfg, 0, 0))
    &&& crate::reduce::pruned_from(full, g1, grids)
    &&& crate::reduce::compressed_from(g1, g2, grids)
    &&& g2.wf()
    &&& g2.symmetric()
    &&& crate::forest::has_spanning_selection(g2, w)
    &&& forall|a: Node, b: Node| g2.has_key(a) && g2.has_key(b) ==> connected(g2, a, b)
    &&& w + 1 >= 12
    &&& v + 12 == w + 1
}

/// The second answer: some valid assembly of these six faces yields a
/// merged, reduced graph spanned with weight `w`, and the answer is that
/// weight plus one, less two per face.
pub open spec fn part2_spec(grids: Seq<Grid<u8>>, v: usize) -> bool {
    exists|
        graphs0: Seq<Graph>,
        graphs: Seq<Graph>,
        sides: Seq<Side>,
        cfg: Seq<Seq<crate::cube::SigView>>,
        full: Graph,
        g1: Graph,
        g2: Graph,
        w: usize,
    |
        #[trigger] part2_witness(grids, v, graphs0, graphs, sides, cfg, full, g1, g2, w)
}

/// The product, across all faces independently, of the steps between each
/// face's own two outlets, found by a shortest-path search on the
/// single-face graph.
pub fn solve_part1(grids: &Vec<Grid<u8>>) -> (r: Result<usize, SolveError>)
    requires
        forall|i: int| 0 <= i < grids@.len() ==> (#[trigger] grids@[i]).wf(),
    ensures
        r matches Ok(v) ==> part1_spec(grids@, v),
{
    let mut total: usize = 1;
    let ghost mut ds: Seq<usize> = Seq::empty();
    let mut gi: usize = 0;
    while gi < grids.len()
        invariant
            forall|i: int| 0 <= i < grids@.len() ==> (#[trigger] grids@[i]).wf(),
            gi <= grids@.len(),
            ds.len() == gi,
            total as int == prod(ds),
            forall|i: int| 0 <= i < gi ==> face_factor(grids@[i], i as usize, #[trigger] ds[i]),
        decreases grids@.len() - gi,
    {
        let grid = &grids[gi];
        let (a, b) = match find_outlets(grid, gi) {
            Option::Some(p) => p,
            Option::None => {
                return Result::Err(SolveError::NoOutletFound);
            },
        };
        let mut g = Graph::new();
        convert_to_graph(grid, gi, &mut g);
        match g.index_of(a) {
            Option::Some(ai) => {
                proof {
                    g.lemma_key_at(ai as int);
                }
            },
            Option::None => {
                return Result::Err(SolveError::NoOutletFound);
            },
        }
        let d = match shortest_path(&g, a, b) {
            Option::Some(d) => d,
            Option::None => {
                return Result::Err(SolveError::NoOutletFound);
            },
        };
        proof {
            assert(crate::builder::face_graph(g, grids@[gi as int], gi));
            assert(outlet_cell(grids@[gi as int], gi, a));
            assert(outlet_cell(grids@[gi as int], gi, b));
            assert(has_wwalk(g, a, b, d));
            assert(face_factor(grids@[gi as int], gi, d));
            lemma_prod_push(ds, d);
        }
        if d != 0 {
            if total > usize::MAX / d {
                return Result::Err(SolveError::MalformedInput);
            }
            proof {
                assert(total * d <= usize::MAX) by (nonlinear_arith)
                    requires
                        d >= 1,
                        total <= usize::MAX as int / d as int,
                ;
            }
            total = total * d;
        } else {
            total = 0;
        }
        proof {
            ds = ds.push(d);
        }
        gi = gi + 1;
    }
    proof {
        assert(part1_witness(grids@, total, ds));
    }
    Result::Ok(total)
}

/// The minimum over all valid cube assemblies of the merged graph's
/// spanning weight plus one, less two per face.  An assembly is skipped
/// when its merged graph does not collapse into a single spanning tree,
/// and likewise when its spanning weight is so small that the final
/// formula would fall below zero (a degenerate assembly no real cube
/// produces); if nothing is left, that is reported.
pub fn solve_part2(grids: &Vec<Grid<u8>>) -> (r: Result<usize, SolveError>)
    requires
        grids@.len() == 6,
        forall|i: int| 0 <= i < 6 ==> valid_grid(#[trigger] grids@[i]),
        forall|i: int|
            0 <= i < 6 ==> (#[trigger] grids@[i]).width == grids@[0].width && grids@[i].height
                == grids@[0].height,
        grids@[0].width == grids@[0].height,
        grids@[0].width >= 1,
    ensures
        r matches Ok(v) ==> part2_spec(grids@, v),
{
    let width = grids[0].width;
    let height = grids[0].height;

    // contract every face into its reduced graph
    let mut graphs: Vec<Graph> = Vec::new();
    let ghost mut graphs0: Seq<Graph> = Seq::empty();
    let mut gi: usize = 0;
    while gi < 6
        invariant
            grids@.len() == 6,
            forall|i: int| 0 <= i < 6 ==> valid_grid(#[trigger] grids@[i]),
            forall|i: int|
                0 <= i < 6 ==> (#[trigger] grids@[i]).width == width && grids@[i].height
                    == height,
            width == height,
            width >= 1,
            gi <= 6,
            graphs@.len() == gi,
            graphs0.len() == gi,
            forall|i: int| 0 <= i < gi ==> (#[trigger] graphs@[i]).wf(),
            forall|i: int| 0 <= i < gi ==> (#[trigger] graphs@[i]).symmetric(),
            forall|i: int, n: Node|
                0 <= i < gi && #[trigger] graphs@[i].has_key(n) ==> n.grid == i && n.x < width
                    && n.y < height,
            forall|i: int|
                0 <= i < gi ==> crate::builder::built_face(
                    #[trigger] graphs0[i],
                    grids@[i],
                    i as usize,
                ),
            forall|i: int|
                0 <= i < gi ==> crate::reduce::compressed_from(
                    #[trigger] graphs0[i],
                    graphs@[i],
                    grids@,
                ),
        decreases 6 - gi,
    {
        let grid = &grids[gi];
        let mut g = Graph::new();
        convert_to_graph(grid, gi, &mut g);
        proof {
            assert(grids_wf(grids@));
            assert forall|n: Node| #[trigger] g.has_key(n) implies node_in_bounds(grids@, n)
                && n.grid == gi && n.x < width && n.y < height by {
                assert(face_node(*grid, gi, n));
            }
        }
        let ghost g_built = g;
        proof {
            assert(crate::builder::built_face(g_built, grids@[gi as int], gi));
        }
        compress_graph(&mut g, grids);
        proof {
            graphs0 = graphs0.push(g_built);
        }
        graphs.push(g);
        gi = gi + 1;
    }

    // derive every face's side signatures
    let mut sides: Vec<Side> = Vec::new();
    let mut si: usize = 0;
    while si < 6
        invariant
            grids@.len() == 6,
            width == height,
            width >= 1,
            graphs@.len() == 6,
            forall|i: int| 0 <= i < 6 ==> (#[trigger] graphs@[i]).wf(),
            forall|i: int| 0 <= i < 6 ==> (#[trigger] graphs@[i]).symmetric(),
            forall|i: int, n: Node|
                0 <= i < 6 && #[trigger] graphs@[i].has_key(n) ==> n.grid == i && n.x < width
                    && n.y < height,
            si <= 6,
            sides@.len() == si,
            forall|i: int| 0 <= i < si ==> crate::cube::wf_side((#[trigger] sides@[i])@),
            forall|i: int| 0 <= i < si ==> (#[trigger] sides@[i]).signatures@.len() == 4,
            forall|i: int| 0 <= i < si ==> (#[trigger] sides@[i])@[0].width == width,
            forall|i: int, d2: int, n: Node|
                0 <= i < si && 0 <= d2 < 4 && (#[trigger] sides@[i]@[d2].nodes.contains(n))
                    ==> graphs@[i].has_key(n),
            forall|i: int|
                0 <= i < si ==> side_from_graph(
                    #[trigger] sides@[i],
                    graphs@[i],
                    width as int,
                    height as int,
                ),
        decreases 6 - si,
    {
        let side = Side::new(&graphs[si], width, height);
        sides.push(side);
        proof {
            assert(side_from_graph(
                sides@[si as int],
                graphs@[si as int],
                width as int,
                height as int,
            ));
        }
        si = si + 1;
    }

    proof {
        // every boundary node recorded in a side is a key of its face graph
        assert forall|i: int, d2: int, k2: int|
            0 <= i < 6 && 0 <= d2 < 4 && 0 <= k2 < sides@[i]@[d2].nodes.len() implies
            graphs@[i].has_key(#[trigger] sides@[i]@[d2].nodes[k2]) by {
            assert(sides@[i]@[d2].nodes.contains(sides@[i]@[d2].nodes[k2]));
        }
    }

    // search for the valid assemblies
    let configs = get_cube_configurations(&sides);
    if configs.len() == 0 {
        return Result::Err(SolveError::NoValidAssembly);
    }

    // evaluate every assembly and keep the cheapest spanning weight
    let mut best: Option<usize> = Option::None;
    let mut ci: usize = 0;
    let penalty: usize = 12;
    while ci < configs.len()
        invariant
            grids@.len() == 6,
            graphs@.len() == 6,
            forall|i: int| 0 <= i < 6 ==> valid_grid(#[trigger] grids@[i]),
            forall|i: int| 0 <= i < 6 ==> (#[trigger] graphs@[i]).wf(),
            forall|i: int| 0 <= i < 6 ==> (#[trigger] graphs@[i]).symmetric(),
            forall|i: int, n: Node|
                0 <= i < 6 && #[trigger] graphs@[i].has_key(n) ==> n.grid == i && n.x
                    < grids@[0].width && n.y < grids@[0].height,
            forall|i: int|
                0 <= i < 6 ==> (#[trigger] grids@[i]).width == grids@[0].width && grids@[i].height
                    == grids@[0].height,
            forall|i: int, d2: int, k2: int|
                0 <= i < 6 && 0 <= d2 < 4 && 0 <= k2 < sides@[i]@[d2].nodes.len()
                    ==> graphs@[i].has_key(#[trigger] sides@[i]@[d2].nodes[k2]),
            sides@.len() == 6,
            forall|t: int|
                0 <= t < configs@.len() ==> crate::assemble::valid_assembly(
                    crate::assemble::side_views_of(#[trigger] configs@[t]),
                    sides@,
                ),
            grids@[0].width == grids@[0].height,
            graphs0.len() == 6,
            forall|i: int|
                0 <= i < 6 ==> crate::builder::built_face(
                    #[trigger] graphs0[i],
                    grids@[i],
                    i as usize,
                ),
            forall|i: int|
                0 <= i < 6 ==> crate::reduce::compressed_from(
                    #[trigger] graphs0[i],
                    graphs@[i],
                    grids@,
                ),
            forall|i: int|
                0 <= i < 6 ==> side_from_graph(
                    #[trigger] sides@[i],
                    graphs@[i],
                    grids@[0].width as int,
                    grids@[0].height as int,
                ),
            forall|t: int|
                0 <= t < configs@.len() ==> (#[trigger] configs@[t])@.len() == 6 && (forall|p: int|
                    0 <= p < 6 ==> crate::cube::wf_side((#[trigger] configs@[t]@[p])@)
                        && configs@[t]@[p].signatures@.len() == 4 && configs@[t]@[p]@[0].width
                        == sides@[0]@[0].width),
            ci <= configs@.len(),
            penalty == 12,
            best is Some ==> part2_spec(grids@, best->Some_0),
        decreases configs@.len() - ci,
    {
        let config = &configs[ci];
        let ghost cv = crate::assemble::side_views_of(configs@[ci as int]);
        let mut full = merge_graphs(&graphs);
        let connections = get_connections(config);
        let ghost merged = full;
        let mut t: usize = 0;
        while t < connections.len()
            invariant
                t <= connections@.len(),
                full.wf(),
                full.symmetric(),
                forall|m: Node|
                    #[trigger] full.has_key(m) ==> merged.has_key(m) || (exists|t2: int|
                        0 <= t2 < t && (m == (#[trigger] connections@[t2]).0 || m
                            == connections@[t2].1)),
                forall|m: Node| merged.has_key(m) ==> #[trigger] full.has_key(m),
                forall|a: Node, b: Node, wt: usize|
                    wt != 1 ==> #[trigger] full.edge_count(a, b, wt) == merged.edge_count(
                        a,
                        b,
                        wt,
                    ),
                forall|a: Node, b: Node, wt: usize| #[trigger]
                    full.edge_count(a, b, wt) >= merged.edge_count(a, b, wt),
                forall|t2: int|
                    0 <= t2 < t ==> full.edge_count(
                        (#[trigger] connections@[t2]).0,
                        connections@[t2].1,
                        1,
                    ) >= 1 && full.edge_count(connections@[t2].1, connections@[t2].0, 1) >= 1,
            decreases connections@.len() - t,
        {
            let (ca, cb) = connections[t];
            let ghost full0 = full;
            full.add_edge(ca, cb, 1);
            proof {
                assert forall|m: Node| #[trigger] full.has_key(m) implies merged.has_key(m) || (
                exists|t2: int|
                    0 <= t2 < t + 1 && (m == (#[trigger] connections@[t2]).0 || m
                        == connections@[t2].1)) by {
                    if full0.has_key(m) {
                        if !merged.has_key(m) {
                            let t2 = choose|t2: int|
                                0 <= t2 < t && (m == (#[trigger] connections@[t2]).0 || m
                                    == connections@[t2].1);
                        }
                    } else {
                        assert(m == connections@[t as int].0 || m == connections@[t as int].1);
                    }
                }
            }
            t = t + 1;
        }
        proof {
            assert(grids_wf(grids@));
            // every node of the merged graph addresses a cell of its face:
            // original nodes by construction, fold endpoints because they
            // are boundary nodes of some face's signatures
            assert(crate::assemble::valid_assembly(cv, sides@));
            let prov = choose|prov: Seq<int>|
                prov.len() == 6 && (forall|p: int|
                    0 <= p < 6 ==> 0 <= #[trigger] prov[p] < sides@.len()
                        && crate::assemble::is_rotation(cv[p], sides@[prov[p]]@)) && (forall|
                    p: int,
                    q: int,
                |
                    0 <= p < q < 6 ==> prov[p] != prov[q]);
            assert forall|m: Node| #[trigger] full.has_key(m) implies node_in_bounds(
                grids@,
                m,
            ) by {
                if merged.has_key(m) {
                    let i = choose|i: int| 0 <= i < 6 && (#[trigger] graphs@[i]).has_key(m);
                    assert(grids@[m.grid as int].width == grids@[0].width);
                } else {
                    let t2 = choose|t2: int|
                        0 <= t2 < connections@.len() && (m == (#[trigger] connections@[t2]).0
                            || m == connections@[t2].1);
                    crate::assemble::lemma_conn_pairs_nodes(cv, 0, 0, t2);
                    assert(crate::assemble::config_node(cv, m));
                    let (p, d, k) = choose|p: int, d: int, k: int|
                        0 <= p < 6 && 0 <= d < 4 && 0 <= k < cv[p][d].nodes.len() && m == (
                        #[trigger] cv[p][d].nodes[k]);
                    let k2 = choose|k2: int|
                        0 <= k2 < 4 && #[trigger] crate::assemble::rotation_eq(
                            cv[p],
                            sides@[prov[p]]@,
                            k2,
                        );
                    let d2 = (d - k2 + 4) % 4;
                    assert(cv[p][d] == sides@[prov[p]]@[d2]);
                    assert(graphs@[prov[p]].has_key(m));
                    assert(m.grid == prov[p]);
                    assert(grids@[m.grid as int].width == grids@[0].width);
                }
            }
            assert(keys_bounded(full, grids@));
        }
        let ghost full_conn = full;
        clean_graph(&mut full, grids);
        let ghost g_after_clean = full;
        compress_graph(&mut full, grids);
        match single_mst(&full) {
            Option::Some(steps) => {
                // a weight below the outlet allowance would drive the
                // formula negative: treat such an assembly as invalid
                if steps <= usize::MAX - 1 && steps + 1 >= penalty {
                    let candidate = steps + 1 - penalty;
                    proof {
                        assert(crate::forest::has_spanning_selection(full, steps));
                        // the merged graph carries exactly the face edges
                        // plus the assembly's unit connections
                        assert(connections@ == crate::assemble::conn_pairs(cv, 0, 0));
                        assert forall|i: int, m: Node, b: Node, wt: usize|
                            0 <= i < 6 && graphs@[i].has_key(m) && wt != 1 implies
                            full_conn.edge_count(m, b, wt) == #[trigger] graphs@[i].edge_count(
                            m,
                            b,
                            wt,
                        ) by {
                            assert(merged.edges_of(m) == graphs@[i].edges_of(m));
                            assert(full_conn.edge_count(m, b, wt) == merged.edge_count(m, b, wt));
                        }
                        assert forall|i: int, m: Node, b: Node, wt: usize|
                            0 <= i < 6 && graphs@[i].has_key(m) implies full_conn.edge_count(
                            m,
                            b,
                            wt,
                        ) >= #[trigger] graphs@[i].edge_count(m, b, wt) by {
                            assert(merged.edges_of(m) == graphs@[i].edges_of(m));
                            assert(full_conn.edge_count(m, b, wt) >= merged.edge_count(m, b, wt));
                        }
                        assert forall|m: Node| #[trigger] full_conn.has_key(m) implies (exists|
                            i: int,
                        |
                            0 <= i < 6 && (#[trigger] graphs@[i]).has_key(m)) || (exists|t2: int|
                            0 <= t2 < connections@.len() && (m == (#[trigger] connections@[t2]).0
                                || m == connections@[t2].1)) by {
                            if merged.has_key(m) {
                            } else {
                                let t2 = choose|t2: int|
                                    0 <= t2 < connections@.len() && (m == (
                                    #[trigger] connections@[t2]).0 || m == connections@[t2].1);
                            }
                        }
                        assert forall|i: int, m: Node|
                            0 <= i < 6 && #[trigger] graphs@[i].has_key(m) implies
                            full_conn.has_key(m) by {
                            assert(merged.has_key(m));
                        }
                        assert(merged_with_connections(full_conn, graphs@, connections@));
                        assert(part2_witness(
                            grids@,
                            candidate,
                            graphs0,
                            graphs@,
                            sides@,
                            cv,
                            full_conn,
                            g_after_clean,
                            full,
                            steps,
                        ));
                        assert(part2_spec(grids@, candidate));
                    }
                    best = match best {
                        Option::Some(m) => if candidate < m {
                            Option::Some(candidate)
                        } else {
                            Option::Some(m)
                        },
                        Option::None => Option::Some(candidate),
                    };
                }
            },
            Option::None => {},
        }
        ci = ci + 1;
    }
    match best {
        Option::Some(v) => Result::Ok(v),
        Option::None => Result::Err(SolveError::AmbiguousSpanningForest),
    }
}

/// Solve the whole puzzle: the per-face outlet distances multiplied, and
/// the cheapest spanning structure over all valid cube assemblies.
pub fn solve(grids: &Vec<Grid<u8>>) -> (r: Result<(usize, usize), SolveError>)
    ensures
        grids@.len() != 6 ==> r == Result::<(usize, usize), SolveError>::Err(
            SolveError::MalformedInput,
        ),
        r matches Ok(v) ==> part1_spec(grids@, v.0) && part2_spec(grids@, v.1),
{
    if grids.len() != 6 {
        return Result::Err(SolveError::MalformedInput);
    }
    let mut gi: usize = 0;
    while gi < 6
        invariant
            grids@.len() == 6,
            gi <= 6,
            forall|i: int| 0 <= i < gi ==> valid_grid(#[trigger] grids@[i]),
            forall|i: int|
                0 <= i < gi ==> (#[trigger] grids@[i]).width == grids@[0].width
                    && grids@[i].height == grids@[0].height,
        decreases 6 - gi,
    {
        if !check_grid(&grids[gi]) {
            return Result::Err(SolveError::MalformedInput);
        }
        if !(grids[gi].width == grids[0].width && grids[gi].height == grids[0].height) {
            return Result::Err(SolveError::MalformedInput);
        }
        gi = gi + 1;
    }
    if grids[0].width != grids[0].height || grids[0].width == 0 {
        return Result::Err(SolveError::MalformedInput);
    }
    let part1 = match solve_part1(grids) {
        Result::Ok(v) => v,
        Result::Err(e) => {
            return Result::Err(e);
        },
    };
    let part2 = match solve_part2(grids) {
        Result::Ok(v) => v,
        Result::Err(e) => {
            return Result::Err(e);
        },
    };
    Result::Ok((part1, part2))
}

} // verus!
