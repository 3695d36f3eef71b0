//! Contracting a grid into a sparse weighted graph.
//!
//! A depth-first walk over the open cells emits a graph node for every
//! outlet, border exit and junction it reaches, together with an undirected
//! edge whose weight is the number of steps walked since the last emitted
//! node.  Cells are marked globally, so no cell is ever expanded twice.

use vstd::prelude::*;

use crate::graph::Graph;
use crate::grid::{lemma_cell_index, lemma_cell_index_injective, Get, Grid, Node, OPEN, OUTLET, WALL};

verus! {

/// How many cells of a visited mask are still unseen.
pub open spec fn count_false(s: Seq<bool>) -> nat
    decreases s.len(),
{
    if s.len() == 0 {
        0
    } else {
        count_false(s.drop_last()) + (if s.last() {
            0nat
        } else {
            1nat
        })
    }
}

/// Marking one cell seen lowers the unseen count exactly when the cell was
/// unseen before.
pub proof fn lemma_count_false_update(s: Seq<bool>, i: int)
    requires
        0 <= i < s.len(),
    ensures
        count_false(s.update(i, true)) == count_false(s) - (if s[i] {
            0int
        } else {
            1int
        }),
    decreases s.len(),
{
    if i == s.len() - 1 {
        assert(s.update(i, true).drop_last() =~= s.drop_last());
        assert(s.update(i, true).last() == true);
    } else {
        lemma_count_false_update(s.drop_last(), i);
        assert(s.update(i, true).drop_last() =~= s.drop_last().update(i, true));
        assert(s.update(i, true).last() == s.last());
    }
}

/// A node that lies on the given face: its coordinates address a cell of
/// the grid that is not a wall.
pub open spec fn face_node(grid: Grid<u8>, gi: usize, n: Node) -> bool {
    n.grid == gi && n.x < grid.width && n.y < grid.height && grid.spec_at(n.x as int, n.y as int)
        != WALL
}

/// A cell where the walk both starts and emits a node: an outlet, or an
/// open cell on the grid's outer border.
pub open spec fn special_cell(grid: Grid<u8>, x: usize, y: usize) -> bool {
    grid.spec_at(x as int, y as int) == OUTLET || (grid.spec_at(x as int, y as int) == OPEN && (x
        == 0 || y == 0 || x == grid.width - 1 || y == grid.height - 1))
}

/// A non-wall cell of the grid.
pub open spec fn open_at(grid: Grid<u8>, x: int, y: int) -> bool {
    0 <= x < grid.width && 0 <= y < grid.height && grid.spec_at(x, y) != WALL
}

/// Two nodes of one face on horizontally or vertically adjacent cells.
pub open spec fn adjacent_cells(a: Node, b: Node) -> bool {
    a.grid == b.grid && ((a.x == b.x && (a.y + 1 == b.y || b.y + 1 == a.y)) || (a.y == b.y && (
    a.x + 1 == b.x || b.x + 1 == a.x)))
}

/// How many of a cell's four neighbors are open.
pub open spec fn open_neighbor_count(grid: Grid<u8>, x: int, y: int) -> int {
    (if open_at(grid, x + 1, y) {
        1int
    } else {
        0int
    }) + (if open_at(grid, x, y + 1) {
        1int
    } else {
        0int
    }) + (if open_at(grid, x - 1, y) {
        1int
    } else {
        0int
    }) + (if open_at(grid, x, y - 1) {
        1int
    } else {
        0int
    })
}

/// A cell the contraction may emit as a graph node: an outlet, an open
/// border cell, or an open cell where at least three corridors meet.
pub open spec fn node_cell(grid: Grid<u8>, n: Node) -> bool {
    &&& n.x < grid.width
    &&& n.y < grid.height
    &&& (special_cell(grid, n.x, n.y) || (grid.spec_at(n.x as int, n.y as int) != WALL
        && open_neighbor_count(grid, n.x as int, n.y as int) >= 3))
}

/// A walk over adjacent non-wall cells of face `gi`.
pub open spec fn is_corridor_walk(grid: Grid<u8>, gi: usize, p: Seq<Node>) -> bool {
    &&& p.len() >= 1
    &&& forall|k: int| 0 <= k < p.len() ==> face_node(grid, gi, #[trigger] p[k])
    &&& forall|k: int| 0 <= k < p.len() - 1 ==> adjacent_cells(#[trigger] p[k], p[k + 1])
}

/// Some corridor walk of exactly `w` grid steps leads from `a` to `b`.
pub open spec fn corridor_between(grid: Grid<u8>, gi: usize, a: Node, b: Node, w: usize) -> bool {
    exists|p: Seq<Node>|
        #[trigger] is_corridor_walk(grid, gi, p) && p[0] == a && p[p.len() - 1] == b && p.len()
            == w + 1
}

/// Corridor walks run both ways.
proof fn lemma_corridor_reverse(grid: Grid<u8>, gi: usize, a: Node, b: Node, w: usize)
    requires
        corridor_between(grid, gi, a, b, w),
    ensures
        corridor_between(grid, gi, b, a, w),
{
    let p = choose|p: Seq<Node>|
        #[trigger] is_corridor_walk(grid, gi, p) && p[0] == a && p[p.len() - 1] == b && p.len()
            == w + 1;
    let q = p.reverse();
    assert(q[0] == p[p.len() - 1]);
    assert(q[q.len() - 1] == p[0]);
    assert forall|k: int| 0 <= k < q.len() implies face_node(grid, gi, #[trigger] q[k]) by {
        assert(q[k] == p[p.len() - 1 - k]);
    }
    assert forall|k: int| 0 <= k < q.len() - 1 implies adjacent_cells(#[trigger] q[k], q[k + 1]) by {
        assert(q[k] == p[p.len() - 1 - k]);
        assert(q[k + 1] == p[p.len() - 2 - k]);
        assert(adjacent_cells(p[p.len() - 2 - k], p[p.len() - 1 - k]));
    }
    assert(is_corridor_walk(grid, gi, q));
}

/// One more adjacent open cell extends a corridor walk by one step.
proof fn lemma_corridor_extend(grid: Grid<u8>, gi: usize, a: Node, b: Node, w: usize, c: Node)
    requires
        corridor_between(grid, gi, a, b, w),
        adjacent_cells(b, c),
        face_node(grid, gi, c),
        w < usize::MAX,
    ensures
        corridor_between(grid, gi, a, c, (w + 1) as usize),
{
    let p = choose|p: Seq<Node>|
        #[trigger] is_corridor_walk(grid, gi, p) && p[0] == a && p[p.len() - 1] == b && p.len()
            == w + 1;
    let q = p.push(c);
    assert forall|k: int| 0 <= k < q.len() - 1 implies adjacent_cells(#[trigger] q[k], q[k + 1]) by {
        if k < p.len() - 1 {
            assert(q[k] == p[k]);
            assert(q[k + 1] == p[k + 1]);
        } else {
            assert(q[k] == p[p.len() - 1]);
            assert(q[k + 1] == c);
        }
    }
    assert(is_corridor_walk(grid, gi, q));
}

/// The cell one step from `pos` in the given direction.
pub open spec fn matches_dir(pos: Node, c: Node, d: int) -> bool {
    c.grid == pos.grid && if d == 0 {
        c.x == pos.x + 1 && c.y == pos.y
    } else if d == 1 {
        c.x == pos.x && c.y == pos.y + 1
    } else if d == 2 {
        c.x + 1 == pos.x && c.y == pos.y
    } else {
        c.x == pos.x && c.y + 1 == pos.y
    }
}

/// Three distinct open neighbors put the neighbor count at three or more.
proof fn lemma_three_neighbors(grid: Grid<u8>, pos: Node, c1: Node, c2: Node, c3: Node)
    requires
        adjacent_cells(pos, c1),
        adjacent_cells(pos, c2),
        adjacent_cells(pos, c3),
        open_at(grid, c1.x as int, c1.y as int),
        open_at(grid, c2.x as int, c2.y as int),
        open_at(grid, c3.x as int, c3.y as int),
        c1 != c2,
        c1 != c3,
        c2 != c3,
    ensures
        open_neighbor_count(grid, pos.x as int, pos.y as int) >= 3,
{
}

/// Some adjacent open cell of `pos` is already marked seen.
pub open spec fn has_seen_neighbor(grid: Grid<u8>, seen: Grid<bool>, pos: Node) -> bool {
    exists|cn: Node|
        #[trigger] adjacent_cells(pos, cn) && open_at(grid, cn.x as int, cn.y as int)
            && seen.spec_at(cn.x as int, cn.y as int) == true
}

/// The second graph extends the first: nodes and edges are only added, and
/// everything added lies on the given face with positive edge weight.
pub open spec fn graph_extends(g0: Graph, g1: Graph, grid: Grid<u8>, gi: usize) -> bool {
    &&& forall|m: Node| g0.has_key(m) ==> g1.has_key(m)
    &&& forall|m: Node|
        #[trigger] g1.has_key(m) ==> g0.has_key(m) || (face_node(grid, gi, m) && node_cell(
            grid,
            m,
        ))
    &&& forall|a: Node, b: Node, w: usize| #[trigger]
        g1.edge_count(a, b, w) >= g0.edge_count(a, b, w)
    &&& forall|a: Node, b: Node, w: usize| #[trigger]
        g1.edge_count(a, b, w) > g0.edge_count(a, b, w) ==> 1 <= w && face_node(grid, gi, a)
            && face_node(grid, gi, b) && corridor_between(grid, gi, a, b, w)
}

/// Extension is transitive.
pub proof fn lemma_extends_trans(g0: Graph, g1: Graph, g2: Graph, grid: Grid<u8>, gi: usize)
    requires
        graph_extends(g0, g1, grid, gi),
        graph_extends(g1, g2, grid, gi),
    ensures
        graph_extends(g0, g2, grid, gi),
{
    assert forall|a: Node, b: Node, w: usize| #[trigger]
        g2.edge_count(a, b, w) >= g0.edge_count(a, b, w) by {
        assert(g2.edge_count(a, b, w) >= g1.edge_count(a, b, w));
        assert(g1.edge_count(a, b, w) >= g0.edge_count(a, b, w));
    }
    assert forall|a: Node, b: Node, w: usize| #[trigger]
        g2.edge_count(a, b, w) > g0.edge_count(a, b, w) implies 1 <= w && face_node(grid, gi, a)
        && face_node(grid, gi, b) && corridor_between(grid, gi, a, b, w) by {
        assert(g1.edge_count(a, b, w) >= g0.edge_count(a, b, w));
        if g2.edge_count(a, b, w) > g1.edge_count(a, b, w) {
        } else {
            assert(g1.edge_count(a, b, w) > g0.edge_count(a, b, w));
        }
    }
}

/// A graph built from one face alone, including the links the contraction
/// owes: beside [`face_graph`], every pair of adjacent special cells is
/// joined by a one-step edge.
pub open spec fn built_face(g: Graph, grid: Grid<u8>, gi: usize) -> bool {
    &&& face_graph(g, grid, gi)
    &&& forall|u: Node, v: Node|
        face_node(grid, gi, u) && face_node(grid, gi, v) && special_cell(grid, u.x, u.y)
            && special_cell(grid, v.x, v.y) && #[trigger] adjacent_cells(u, v) ==> g.edge_count(
            u,
            v,
            1,
        ) >= 1 || g.edge_count(v, u, 1) >= 1
}

/// A graph built from one face alone: well formed, symmetric, and holding
/// only nodes and positive-weight edges of that face.
pub open spec fn face_graph(g: Graph, grid: Grid<u8>, gi: usize) -> bool {
    &&& g.wf()
    &&& g.symmetric()
    &&& forall|n: Node| #[trigger] g.has_key(n) ==> face_node(grid, gi, n) && node_cell(grid, n)
    &&& forall|a: Node, b: Node, w: usize| #[trigger]
        g.edge_count(a, b, w) >= 1 ==> 1 <= w && face_node(grid, gi, a) && face_node(grid, gi, b)
            && corridor_between(grid, gi, a, b, w)
}

/// Converts a grid to a graph where every outlet, junction, and grid exit is
/// a node and the nodes are all connected through edges.
pub fn convert_to_graph(grid: &Grid<u8>, gi: usize, graph: &mut Graph)
    requires
        grid.wf(),
        old(graph).wf(),
    ensures
        final(graph).wf(),
        old(graph).symmetric() ==> final(graph).symmetric(),
        graph_extends(*old(graph), *final(graph), *grid, gi),
        (forall|n: Node| !old(graph).has_key(n)) ==> face_graph(*final(graph), *grid, gi),
        forall|u: Node, v: Node|
            face_node(*grid, gi, u) && face_node(*grid, gi, v) && special_cell(*grid, u.x, u.y)
                && special_cell(*grid, v.x, v.y) && #[trigger] adjacent_cells(u, v) ==> final(graph).edge_count(u, v, 1) >= 1 || final(graph).edge_count(v, u, 1) >= 1,
{
    let ghost empty_start = forall|n: Node| !old(graph).has_key(n);
    let width = grid.width;
    let height = grid.height;
    let cells: usize = grid.grid.len();

    // find all start points
    let mut start_points: Vec<Node> = Vec::new();
    let mut y: usize = 0;
    while y < height
        invariant
            grid.wf(),
            width == grid.width,
            height == grid.height,
            y <= height,
            forall|k: int|
                0 <= k < start_points@.len() ==> face_node(*grid, gi, #[trigger] start_points@[k])
                    && special_cell(*grid, start_points@[k].x, start_points@[k].y),
            forall|x2: usize, y2: usize|
                x2 < width && y2 < y && #[trigger] special_cell(*grid, x2, y2)
                    ==> start_points@.contains(Node { x: x2, y: y2, grid: gi }),
        decreases height - y,
    {
        let mut x: usize = 0;
        while x < width
            invariant
                grid.wf(),
                width == grid.width,
                height == grid.height,
                y < height,
                x <= width,
                forall|k: int|
                    0 <= k < start_points@.len() ==> face_node(
                        *grid,
                        gi,
                        #[trigger] start_points@[k],
                    ) && special_cell(*grid, start_points@[k].x, start_points@[k].y),
                forall|x2: usize, y2: usize|
                    x2 < width && y2 < y && #[trigger] special_cell(*grid, x2, y2)
                        ==> start_points@.contains(Node { x: x2, y: y2, grid: gi }),
                forall|x2: usize|
                    x2 < x && #[trigger] special_cell(*grid, x2, y) ==> start_points@.contains(
                        Node { x: x2, y, grid: gi },
                    ),
            decreases width - x,
        {
            let c = grid.get(x, y);
            let ghost sp0 = start_points@;
            if c == OUTLET || (c == OPEN && (x == 0 || y == 0 || x == width - 1 || y == height
                - 1)) {
                start_points.push(Node { x, y, grid: gi });
            }
            x = x + 1;
            proof {
                assert forall|x2: usize|
                    x2 < x && #[trigger] special_cell(*grid, x2, y) implies
                    start_points@.contains(Node { x: x2, y, grid: gi }) by {
                    if x2 < x - 1 {
                        assert(sp0.contains(Node { x: x2, y, grid: gi }));
                        let t = choose|t: int|
                            0 <= t < sp0.len() && sp0[t] == (Node { x: x2, y, grid: gi });
                        assert(start_points@[t] == (Node { x: x2, y, grid: gi }));
                    } else {
                        assert(start_points@[start_points@.len() - 1] == (Node {
                            x: x2,
                            y,
                            grid: gi,
                        }));
                    }
                }
                assert forall|x2: usize, y2: usize|
                    x2 < width && y2 < y && #[trigger] special_cell(*grid, x2, y2) implies
                    start_points@.contains(Node { x: x2, y: y2, grid: gi }) by {
                    assert(sp0.contains(Node { x: x2, y: y2, grid: gi }));
                    let t = choose|t: int|
                        0 <= t < sp0.len() && sp0[t] == (Node { x: x2, y: y2, grid: gi });
                    assert(start_points@[t] == (Node { x: x2, y: y2, grid: gi }));
                }
            }
        }
        y = y + 1;
    }

    // walk from every start point, marking cells globally
    let mut seen: Grid<bool> = Grid::filled(width, height, false);
    proof {
        // nothing is seen yet, so no pair is owed a link
        assert forall|u: Node, v: Node|
            #![trigger adjacent_cells(u, v), seen.spec_at(v.x as int, v.y as int)]
            face_node(*grid, gi, u) && face_node(*grid, gi, v) && special_cell(*grid, u.x, u.y)
                && special_cell(*grid, v.x, v.y) && adjacent_cells(u, v) && seen.spec_at(
                v.x as int,
                v.y as int,
            ) == true implies graph.edge_count(u, v, 1) >= 1 || graph.edge_count(v, u, 1)
            >= 1 by {
            lemma_cell_index(v.x as int, v.y as int, width as int, height as int);
            assert(seen.spec_at(v.x as int, v.y as int) == false);
        }
        assert(specials_linked(*grid, gi, seen, *graph));
    }
    let ghost g_init = *graph;
    let mut si: usize = 0;
    while si < start_points.len()
        invariant
            grid.wf(),
            width == grid.width,
            height == grid.height,
            seen.wf(),
            seen.width == width,
            seen.height == height,
            si <= start_points@.len(),
            forall|k: int|
                0 <= k < start_points@.len() ==> face_node(*grid, gi, #[trigger] start_points@[k])
                    && special_cell(*grid, start_points@[k].x, start_points@[k].y),
            graph.wf(),
            g_init.symmetric() ==> graph.symmetric(),
            graph_extends(g_init, *graph, *grid, gi),
            g_init == *old(graph),
            specials_linked(*grid, gi, seen, *graph),
            forall|x2: usize, y2: usize|
                x2 < width && y2 < height && #[trigger] special_cell(*grid, x2, y2)
                    ==> start_points@.contains(Node { x: x2, y: y2, grid: gi }),
            forall|j: int|
                0 <= j < si ==> seen.spec_at(
                    (#[trigger] start_points@[j]).x as int,
                    start_points@[j].y as int,
                ) == true,
        decreases start_points@.len() - si,
    {
        let s = start_points[si];
        let ghost seen_pre = seen;
        walk_from(grid, gi, graph, &mut seen, s);
        proof {
            assert forall|j: int|
                0 <= j < si + 1 implies seen.spec_at(
                (#[trigger] start_points@[j]).x as int,
                start_points@[j].y as int,
            ) == true by {
                if j < si {
                    let sp = start_points@[j];
                    lemma_cell_index(sp.x as int, sp.y as int, width as int, height as int);
                    assert(seen_pre.spec_at(sp.x as int, sp.y as int) == true);
                }
            }
        }
        si = si + 1;
    }
    proof {
        // every special cell was a start point and is seen now, so every
        // adjacent pair of special cells carries its one-step edge
        assert forall|u: Node, v: Node|
            face_node(*grid, gi, u) && face_node(*grid, gi, v) && special_cell(*grid, u.x, u.y)
                && special_cell(*grid, v.x, v.y) && #[trigger] adjacent_cells(u, v) implies
            graph.edge_count(u, v, 1) >= 1 || graph.edge_count(v, u, 1) >= 1 by {
            assert(start_points@.contains(Node { x: v.x, y: v.y, grid: gi }));
            let j = choose|j: int|
                0 <= j < start_points@.len() && start_points@[j] == (Node {
                    x: v.x,
                    y: v.y,
                    grid: gi,
                });
            assert(v == (Node { x: v.x, y: v.y, grid: gi }));
            assert(seen.spec_at(v.x as int, v.y as int) == true);
        }
        if forall|n: Node| !old(graph).has_key(n) {
            assert(graph.symmetric());
            assert forall|a: Node, b: Node, w: usize| #[trigger]
                graph.edge_count(a, b, w) >= 1 implies 1 <= w && face_node(*grid, gi, a)
                && face_node(*grid, gi, b) by {
                assert(old(graph).edge_count(a, b, w) == 0) by {
                    if old(graph).has_key(a) {
                        assert(false);
                    }
                    old(graph).lemma_absent_no_edges(a, b, w);
                }
                assert(graph.edge_count(a, b, w) > old(graph).edge_count(a, b, w));
            }
            assert(face_graph(*graph, *grid, gi));
        }
    }
}

/// Every pair of adjacent special cells, of which the second is already
/// marked seen, is joined by a one-step edge.
pub open spec fn specials_linked(grid: Grid<u8>, gi: usize, seen: Grid<bool>, g: Graph) -> bool {
    forall|u: Node, v: Node|
        #![trigger adjacent_cells(u, v), seen.spec_at(v.x as int, v.y as int)]
        face_node(grid, gi, u) && face_node(grid, gi, v) && special_cell(grid, u.x, u.y)
            && special_cell(grid, v.x, v.y) && adjacent_cells(u, v) && seen.spec_at(
            v.x as int,
            v.y as int,
        ) == true ==> g.edge_count(u, v, 1) >= 1 || g.edge_count(v, u, 1) >= 1
}

/// As [`specials_linked`], but a pair may instead still be pending on the
/// worklist as a one-step item from the seen cell.
pub open spec fn specials_linked_pending(
    grid: Grid<u8>,
    gi: usize,
    seen: Grid<bool>,
    g: Graph,
    st: Seq<(Node, usize, Node)>,
) -> bool {
    forall|u: Node, v: Node|
        #![trigger adjacent_cells(u, v), seen.spec_at(v.x as int, v.y as int)]
        face_node(grid, gi, u) && face_node(grid, gi, v) && special_cell(grid, u.x, u.y)
            && special_cell(grid, v.x, v.y) && adjacent_cells(u, v) && seen.spec_at(
            v.x as int,
            v.y as int,
        ) == true ==> g.edge_count(u, v, 1) >= 1 || g.edge_count(v, u, 1) >= 1 || (exists|k: int|
            0 <= k < st.len() && (st[k] == ((u, 1usize, v)) || st[k] == ((v, 1usize, u))))
}

/// An adjacent cell lies in one of the four directions.
proof fn lemma_adjacent_dir(pos: Node, c: Node)
    requires
        adjacent_cells(pos, c),
    ensures
        exists|d2: int| 0 <= d2 < 4 && #[trigger] matches_dir(pos, c, d2),
{
    if c.x == pos.x + 1 && c.y == pos.y {
        assert(matches_dir(pos, c, 0));
    } else if c.x == pos.x && c.y == pos.y + 1 {
        assert(matches_dir(pos, c, 1));
    } else if c.x + 1 == pos.x && c.y == pos.y {
        assert(matches_dir(pos, c, 2));
    } else {
        assert(matches_dir(pos, c, 3));
    }
}

/// The worklist holds the given item.
pub open spec fn stack_has_item(
    st: Seq<(Node, usize, Node)>,
    n: Node,
    stp: usize,
    anch: Node,
) -> bool {
    exists|k2: int| 0 <= k2 < st.len() && st[k2] == ((n, stp, anch))
}

/// Revisiting a seen cell keeps every pending pair covered: a popped
/// pending link was emitted on arrival, and all other links survive.
proof fn lemma_linked_after_revisit(
    grid: Grid<u8>,
    gi: usize,
    seen: Grid<bool>,
    g0: Graph,
    g: Graph,
    stack0: Seq<(Node, usize, Node)>,
    st: Seq<(Node, usize, Node)>,
    pos: Node,
    steps: usize,
    start: Node,
)
    requires
        specials_linked_pending(grid, gi, seen, g0, stack0),
        stack0.len() > 0,
        stack0[stack0.len() - 1] == ((pos, steps, start)),
        st == stack0.drop_last(),
        forall|x: Node, y: Node, v: usize| #[trigger]
            g.edge_count(x, y, v) >= g0.edge_count(x, y, v),
        (steps == 1 && special_cell(grid, pos.x, pos.y)) ==> g.edge_count(start, pos, 1) >= 1,
    ensures
        specials_linked_pending(grid, gi, seen, g, st),
{
    assert forall|u: Node, v: Node|
        #![trigger adjacent_cells(u, v), seen.spec_at(v.x as int, v.y as int)]
        face_node(grid, gi, u) && face_node(grid, gi, v) && special_cell(grid, u.x, u.y)
            && special_cell(grid, v.x, v.y) && adjacent_cells(u, v) && seen.spec_at(
            v.x as int,
            v.y as int,
        ) == true implies g.edge_count(u, v, 1) >= 1 || g.edge_count(v, u, 1) >= 1 || (exists|
        k2: int,
    |
        0 <= k2 < st.len() && (st[k2] == ((u, 1usize, v)) || st[k2] == ((v, 1usize, u)))) by {
        if g0.edge_count(u, v, 1) >= 1 || g0.edge_count(v, u, 1) >= 1 {
            assert(g.edge_count(u, v, 1) >= g0.edge_count(u, v, 1));
            assert(g.edge_count(v, u, 1) >= g0.edge_count(v, u, 1));
        } else {
            let k = choose|k: int|
                0 <= k < stack0.len() && (stack0[k] == ((u, 1usize, v)) || stack0[k] == ((
                v,
                1usize,
                u,
                )));
            if k < stack0.len() - 1 {
                assert(st[k] == stack0[k]);
            } else {
                assert((pos, steps, start) == ((u, 1usize, v)) || (pos, steps, start) == ((
                v,
                1usize,
                u,
                )));
                assert(g.edge_count(start, pos, 1) >= 1);
            }
        }
    }
}

/// Expanding an unseen cell keeps every pending pair covered: the newly
/// seen cell pushed one-step links to its unseen special neighbors, pairs
/// with its already expanded neighbors were covered before, and a popped
/// pending link was emitted on arrival.
proof fn lemma_linked_after_expand(
    grid: Grid<u8>,
    gi: usize,
    seen0: Grid<bool>,
    seen: Grid<bool>,
    g0: Graph,
    g: Graph,
    stack0: Seq<(Node, usize, Node)>,
    stack_mid: Seq<(Node, usize, Node)>,
    st: Seq<(Node, usize, Node)>,
    pos: Node,
    steps: usize,
    start: Node,
)
    requires
        grid.wf(),
        seen0.wf(),
        seen0.width == grid.width,
        seen0.height == grid.height,
        seen.wf(),
        seen.width == grid.width,
        seen.height == grid.height,
        face_node(grid, gi, pos),
        specials_linked_pending(grid, gi, seen0, g0, stack0),
        stack0.len() > 0,
        stack0[stack0.len() - 1] == ((pos, steps, start)),
        seen.grid@ == seen0.grid@.update(
            pos.y as int * grid.width as int + pos.x as int,
            true,
        ),
        forall|x: Node, y: Node, v: usize| #[trigger]
            g.edge_count(x, y, v) >= g0.edge_count(x, y, v),
        (steps == 1 && special_cell(grid, pos.x, pos.y)) ==> g.edge_count(start, pos, 1) >= 1,
        stack_mid == stack0.drop_last(),
        stack_mid.len() <= st.len(),
        forall|j: int| 0 <= j < stack_mid.len() ==> st[j] == stack_mid[j],
        special_cell(grid, pos.x, pos.y) ==> (forall|cn: Node, d2: int|
            0 <= d2 < 4 && #[trigger] matches_dir(pos, cn, d2) && cn.x < grid.width && cn.y
                < grid.height && grid.spec_at(cn.x as int, cn.y as int) != WALL && seen.spec_at(
                cn.x as int,
                cn.y as int,
            ) == false ==> stack_has_item(st, cn, 1usize, pos)),
    ensures
        specials_linked_pending(grid, gi, seen, g, st),
{
    assert forall|u: Node, v: Node|
        #![trigger adjacent_cells(u, v), seen.spec_at(v.x as int, v.y as int)]
        face_node(grid, gi, u) && face_node(grid, gi, v) && special_cell(grid, u.x, u.y)
            && special_cell(grid, v.x, v.y) && adjacent_cells(u, v) && seen.spec_at(
            v.x as int,
            v.y as int,
        ) == true implies g.edge_count(u, v, 1) >= 1 || g.edge_count(v, u, 1) >= 1 || (exists|
        k2: int,
    |
        0 <= k2 < st.len() && (st[k2] == ((u, 1usize, v)) || st[k2] == ((v, 1usize, u)))) by {
        lemma_cell_index(v.x as int, v.y as int, grid.width as int, grid.height as int);
        lemma_cell_index(u.x as int, u.y as int, grid.width as int, grid.height as int);
        lemma_cell_index(pos.x as int, pos.y as int, grid.width as int, grid.height as int);
        if seen0.spec_at(v.x as int, v.y as int) == true {
            if g0.edge_count(u, v, 1) >= 1 || g0.edge_count(v, u, 1) >= 1 {
                assert(g.edge_count(u, v, 1) >= g0.edge_count(u, v, 1));
                assert(g.edge_count(v, u, 1) >= g0.edge_count(v, u, 1));
            } else {
                let k = choose|k: int|
                    0 <= k < stack0.len() && (stack0[k] == ((u, 1usize, v)) || stack0[k] == ((
                    v,
                    1usize,
                    u,
                    )));
                if k < stack0.len() - 1 {
                    assert(st[k] == stack0[k]);
                } else {
                    assert((pos, steps, start) == ((u, 1usize, v)) || (pos, steps, start) == ((
                    v,
                    1usize,
                    u,
                    )));
                    assert(g.edge_count(start, pos, 1) >= 1);
                }
            }
        } else {
            assert(v.y as int * grid.width as int + v.x as int == pos.y as int
                * grid.width as int + pos.x as int) by {
                if v.y as int * grid.width as int + v.x as int != pos.y as int
                    * grid.width as int + pos.x as int {
                    assert(seen.grid@[v.y as int * grid.width as int + v.x as int]
                        == seen0.grid@[v.y as int * grid.width as int + v.x as int]);
                    assert(seen.spec_at(v.x as int, v.y as int) == seen.grid@[v.y as int
                        * grid.width as int + v.x as int]);
                    assert(seen0.spec_at(v.x as int, v.y as int) == seen0.grid@[v.y as int
                        * grid.width as int + v.x as int]);
                    assert(false);
                }
            }
            lemma_cell_index_injective(
                v.x as int,
                v.y as int,
                pos.x as int,
                pos.y as int,
                grid.width as int,
            );
            assert(v == pos);
            if seen.spec_at(u.x as int, u.y as int) == false {
                lemma_adjacent_dir(pos, u);
                assert(grid.spec_at(u.x as int, u.y as int) != WALL);
                assert(stack_has_item(st, u, 1usize, pos));
                let k2 = choose|k2: int|
                    0 <= k2 < st.len() && st[k2] == ((u, 1usize, pos));
                assert(st[k2] == ((u, 1usize, v)));
            } else {
                assert(u.x != pos.x || u.y != pos.y);
                assert(u.y as int * grid.width as int + u.x as int != pos.y as int
                    * grid.width as int + pos.x as int) by {
                    if u.y as int * grid.width as int + u.x as int == pos.y as int
                        * grid.width as int + pos.x as int {
                        lemma_cell_index_injective(
                            u.x as int,
                            u.y as int,
                            pos.x as int,
                            pos.y as int,
                            grid.width as int,
                        );
                    }
                }
                assert(seen.grid@[u.y as int * grid.width as int + u.x as int]
                    == seen0.grid@[u.y as int * grid.width as int + u.x as int]);
                assert(seen.spec_at(u.x as int, u.y as int) == seen.grid@[u.y as int
                    * grid.width as int + u.x as int]);
                assert(seen0.spec_at(u.x as int, u.y as int) == seen0.grid@[u.y as int
                    * grid.width as int + u.x as int]);
                assert(seen0.spec_at(u.x as int, u.y as int) == true);
                assert(adjacent_cells(v, u));
                if g0.edge_count(v, u, 1) >= 1 || g0.edge_count(u, v, 1) >= 1 {
                    assert(g.edge_count(v, u, 1) >= g0.edge_count(v, u, 1));
                    assert(g.edge_count(u, v, 1) >= g0.edge_count(u, v, 1));
                } else {
                    let k = choose|k: int|
                        0 <= k < stack0.len() && (stack0[k] == ((v, 1usize, u)) || stack0[k]
                            == ((u, 1usize, v)));
                    if k < stack0.len() - 1 {
                        assert(st[k] == stack0[k]);
                    } else {
                        assert((pos, steps, start) == ((v, 1usize, u)));
                        assert(g.edge_count(start, pos, 1) >= 1);
                    }
                }
            }
        }
    }
}

/// Adding one undirected edge between two node cells of the face,
/// realized by a corridor walk of its weight, extends the graph.
proof fn lemma_step_extends(
    g0: Graph,
    g1: Graph,
    grid: Grid<u8>,
    gi: usize,
    a: Node,
    b: Node,
    w: usize,
)
    requires
        forall|m: Node| #[trigger] g1.has_key(m) == (g0.has_key(m) || m == a || m == b),
        forall|x: Node, y: Node, v: usize| #[trigger]
            g1.edge_count(x, y, v) == g0.edge_count(x, y, v) + (if x == a && y == b && v == w {
                1int
            } else {
                0int
            }) + (if x == b && y == a && v == w {
                1int
            } else {
                0int
            }),
        face_node(grid, gi, a),
        face_node(grid, gi, b),
        node_cell(grid, a),
        node_cell(grid, b),
        1 <= w,
        corridor_between(grid, gi, a, b, w),
        corridor_between(grid, gi, b, a, w),
    ensures
        graph_extends(g0, g1, grid, gi),
{
}

/// One depth-first walk: expands unseen cells, emits nodes and edges, and
/// never expands a cell twice.
#[verifier::rlimit(100)]
fn walk_from(grid: &Grid<u8>, gi: usize, graph: &mut Graph, seen: &mut Grid<bool>, s: Node)
    requires
        grid.wf(),
        old(seen).wf(),
        old(seen).width == grid.width,
        old(seen).height == grid.height,
        old(graph).wf(),
        face_node(*grid, gi, s),
        special_cell(*grid, s.x, s.y),
        specials_linked(*grid, gi, *old(seen), *old(graph)),
    ensures
        final(graph).wf(),
        old(graph).symmetric() ==> final(graph).symmetric(),
        graph_extends(*old(graph), *final(graph), *grid, gi),
        final(seen).wf(),
        final(seen).width == grid.width,
        final(seen).height == grid.height,
        specials_linked(*grid, gi, *final(seen), *final(graph)),
        final(seen).spec_at(s.x as int, s.y as int) == true,
        forall|ii: int|
            0 <= ii < old(seen).grid@.len() && old(seen).grid@[ii] == true ==> final(seen).grid@[ii] == true,
{
    let width = grid.width;
    let height = grid.height;
    let ghost g_init = *graph;
    let mut stack: Vec<(Node, usize, Node)> = Vec::new();
    stack.push((s, 0, s));
    proof {
        let p0 = seq![s];
        assert(is_corridor_walk(*grid, gi, p0));
        assert(corridor_between(*grid, gi, s, s, 0));
        assert(node_cell(*grid, s));
        assert(stack@[0] == ((s, 0usize, s)));
    }
    while stack.len() > 0
        invariant
            grid.wf(),
            width == grid.width,
            height == grid.height,
            seen.wf(),
            seen.width == width,
            seen.height == height,
            graph.wf(),
            g_init.symmetric() ==> graph.symmetric(),
            graph_extends(g_init, *graph, *grid, gi),
            g_init == *old(graph),
            forall|k: int|
                0 <= k < stack@.len() ==> face_node(*grid, gi, (#[trigger] stack@[k]).0)
                    && face_node(*grid, gi, stack@[k].2) && node_cell(*grid, stack@[k].2)
                    && corridor_between(*grid, gi, stack@[k].2, stack@[k].0, stack@[k].1) && (
                stack@[k].1 > 0 ==> has_seen_neighbor(*grid, *seen, stack@[k].0)),
            forall|k: int|
                0 <= k < stack@.len() && (#[trigger] stack@[k]).1 == 0 ==> stack@[k].0
                    == stack@[k].2,
            face_node(*grid, gi, s),
            specials_linked_pending(*grid, gi, *seen, *graph, stack@),
            seen.spec_at(s.x as int, s.y as int) == true || (exists|k: int|
                0 <= k < stack@.len() && #[trigger] stack@[k] == ((s, 0usize, s))),
            old(seen).grid@.len() == seen.grid@.len(),
            forall|ii: int|
                0 <= ii < old(seen).grid@.len() && old(seen).grid@[ii] == true
                    ==> seen.grid@[ii] == true,
        decreases count_false(seen.grid@), stack@.len(),
    {
        let ghost seen0 = *seen;
        let ghost stack0 = stack@;
        let ghost g_iter0 = *graph;
        let (pos, steps, start) = stack.pop().unwrap();
        proof {
            assert(stack0[stack0.len() - 1] == (pos, steps, start));
            assert(face_node(*grid, gi, pos));
            assert(face_node(*grid, gi, start));
            assert(node_cell(*grid, start));
            assert(corridor_between(*grid, gi, start, pos, steps));
            if steps > 0 {
                assert(has_seen_neighbor(*grid, *seen, pos));
            }
        }
        let c = grid.get(pos.x, pos.y);
        if seen.get(pos.x, pos.y) {
            // the cell was reached again along another corridor: record the
            // connection if it is a node cell, but do not expand it again
            if steps > 0 && (c == OUTLET || (c == OPEN && (pos.x == 0 || pos.y == 0 || pos.x
                == width - 1 || pos.y == height - 1))) {
                proof {
                    assert(special_cell(*grid, pos.x, pos.y));
                    assert(node_cell(*grid, pos));
                    lemma_corridor_reverse(*grid, gi, start, pos, steps);
                }
                let ghost g_before = *graph;
                graph.add_edge(start, pos, steps);
                proof {
                    lemma_step_extends(g_before, *graph, *grid, gi, start, pos, steps);
                    lemma_extends_trans(g_init, g_before, *graph, *grid, gi);
                }
            }
            proof {
                // every pending pair stays covered: the popped item either
                // was no pending link, or its emission above recorded the
                // edge
                assert forall|u: Node, v: Node|
                    #![trigger adjacent_cells(u, v), seen.spec_at(v.x as int, v.y as int)]
                    face_node(*grid, gi, u) && face_node(*grid, gi, v) && special_cell(
                        *grid,
                        u.x,
                        u.y,
                    ) && special_cell(*grid, v.x, v.y) && adjacent_cells(u, v) && seen.spec_at(
                        v.x as int,
                        v.y as int,
                    ) == true implies graph.edge_count(u, v, 1) >= 1 || graph.edge_count(v, u, 1)
                    >= 1 || (exists|k: int|
                    0 <= k < stack@.len() && (stack@[k] == ((u, 1usize, v)) || stack@[k] == ((
                    v,
                    1usize,
                    u,
                    )))) by {
                    assert(seen0.spec_at(v.x as int, v.y as int) == true);
                    if g_iter0.edge_count(u, v, 1) >= 1 || g_iter0.edge_count(v, u, 1) >= 1 {
                        assert(graph.edge_count(u, v, 1) >= g_iter0.edge_count(u, v, 1));
                        assert(graph.edge_count(v, u, 1) >= g_iter0.edge_count(v, u, 1));
                    } else {
                        let k = choose|k: int|
                            0 <= k < stack0.len() && (stack0[k] == ((u, 1usize, v)) || stack0[k]
                                == ((v, 1usize, u)));
                        if k < stack0.len() - 1 {
                            assert(stack@[k] == stack0[k]);
                        } else {
                            // the popped item was the pending link, and it
                            // was emitted just now
                            assert((pos, steps, start) == ((u, 1usize, v)) || (pos, steps, start)
                                == ((v, 1usize, u)));
                            assert(graph.edge_count(start, pos, 1) >= 1);
                        }
                    }
                }
                if !(seen.spec_at(s.x as int, s.y as int) == true) {
                    let k = choose|k: int|
                        0 <= k < stack0.len() && #[trigger] stack0[k] == ((s, 0usize, s));
                    if k == stack0.len() - 1 {
                        assert((pos, steps, start) == ((s, 0usize, s)));
                        assert(seen.spec_at(pos.x as int, pos.y as int) == true);
                        assert(false);
                    } else {
                        assert(stack@[k] == stack0[k]);
                    }
                }
            }
        } else {
            seen.set(pos.x, pos.y, true);
            proof {
                lemma_cell_index(pos.x as int, pos.y as int, width as int, height as int);
                lemma_count_false_update(
                    seen0.grid@,
                    pos.y as int * width as int + pos.x as int,
                );
                // marking a cell keeps every recorded seen neighbor seen
                assert forall|k: int|
                    0 <= k < stack@.len() && (#[trigger] stack@[k]).1 > 0 implies
                    has_seen_neighbor(*grid, *seen, stack@[k].0) by {
                    let cn = choose|cn: Node|
                        #[trigger] adjacent_cells(stack@[k].0, cn) && open_at(
                            *grid,
                            cn.x as int,
                            cn.y as int,
                        ) && seen0.spec_at(cn.x as int, cn.y as int) == true;
                    lemma_cell_index(cn.x as int, cn.y as int, width as int, height as int);
                    assert(seen.spec_at(cn.x as int, cn.y as int) == true);
                }
                if steps > 0 {
                    let cn = choose|cn: Node|
                        #[trigger] adjacent_cells(pos, cn) && open_at(
                            *grid,
                            cn.x as int,
                            cn.y as int,
                        ) && seen0.spec_at(cn.x as int, cn.y as int) == true;
                    lemma_cell_index(cn.x as int, cn.y as int, width as int, height as int);
                    assert(seen.spec_at(cn.x as int, cn.y as int) == true);
                    assert(has_seen_neighbor(*grid, *seen, pos));
                }
            }
            let mut cur_start = start;
            let mut cur_steps = steps;
            if cur_steps > 0 && (c == OUTLET || (c == OPEN && (pos.x == 0 || pos.y == 0 || pos.x
                == width - 1 || pos.y == height - 1))) {
                // we've stepped on an outlet or an exit at the grid's border -
                // add a new edge from our current start node to here
                proof {
                    assert(special_cell(*grid, pos.x, pos.y));
                    assert(node_cell(*grid, pos));
                    lemma_corridor_reverse(*grid, gi, cur_start, pos, cur_steps);
                }
                let ghost g_before = *graph;
                graph.add_edge(cur_start, pos, cur_steps);
                proof {
                    lemma_step_extends(g_before, *graph, *grid, gi, cur_start, pos, cur_steps);
                    lemma_extends_trans(g_init, g_before, *graph, *grid, gi);
                }
                cur_start = pos;
                cur_steps = 0;
                proof {
                    let p0 = seq![pos];
                    assert(is_corridor_walk(*grid, gi, p0));
                    assert(corridor_between(*grid, gi, pos, pos, 0));
                }
            }

            // find all unseen open neighbors of the current position
            let mut neighbors: Vec<Node> = Vec::new();
            let ghost seen_now = *seen;
            // right, down, left, up
            let mut d: usize = 0;
            while d < 4
                invariant
                    grid.wf(),
                    width == grid.width,
                    height == grid.height,
                    seen.wf(),
                    seen.width == width,
                    seen.height == height,
                    *seen == seen_now,
                    d <= 4,
                    pos.x < width,
                    pos.y < height,
                    face_node(*grid, gi, pos),
                    forall|k: int|
                        0 <= k < neighbors@.len() ==> face_node(
                            *grid,
                            gi,
                            #[trigger] neighbors@[k],
                        ) && adjacent_cells(pos, neighbors@[k]) && open_at(
                            *grid,
                            neighbors@[k].x as int,
                            neighbors@[k].y as int,
                        ) && seen.spec_at(neighbors@[k].x as int, neighbors@[k].y as int)
                            == false,
                    forall|t1: int, t2: int|
                        0 <= t1 < t2 < neighbors@.len() ==> neighbors@[t1] != neighbors@[t2],
                    forall|t: int, d2: int|
                        0 <= t < neighbors@.len() && d <= d2 < 4 ==> !(#[trigger] matches_dir(
                            pos,
                            neighbors@[t],
                            d2,
                        )),
                    forall|cn: Node, d2: int|
                        0 <= d2 < d && #[trigger] matches_dir(pos, cn, d2) && cn.x < width
                            && cn.y < height && grid.spec_at(cn.x as int, cn.y as int) != WALL
                            && seen.spec_at(cn.x as int, cn.y as int) == false
                            ==> neighbors@.contains(cn),
                decreases 4 - d,
            {
                let (nx_ok, nx, ny_ok, ny): (bool, usize, bool, usize) = if d == 0 {
                    (pos.x < width - 1, pos.x + 1, true, pos.y)
                } else if d == 1 {
                    (true, pos.x, pos.y < height - 1, pos.y + 1)
                } else if d == 2 {
                    (pos.x > 0, if pos.x > 0 { pos.x - 1 } else { 0 }, true, pos.y)
                } else {
                    (true, pos.x, pos.y > 0, if pos.y > 0 { pos.y - 1 } else { 0 })
                };
                let ghost neighbors0 = neighbors@;
                if nx_ok && ny_ok && !seen.get(nx, ny) && grid.get(nx, ny) != WALL {
                    proof {
                        let cnew = Node { x: nx, y: ny, grid: gi };
                        assert(matches_dir(pos, cnew, d as int));
                        assert(adjacent_cells(pos, cnew));
                        assert forall|t: int|
                            0 <= t < neighbors@.len() implies cnew != #[trigger] neighbors@[t] by {
                            assert(!matches_dir(pos, neighbors@[t], d as int));
                        }
                    }
                    neighbors.push(Node { x: nx, y: ny, grid: gi });
                }
                proof {
                    assert forall|cn: Node, d2: int|
                        0 <= d2 < d + 1 && #[trigger] matches_dir(pos, cn, d2) && cn.x < width
                            && cn.y < height && grid.spec_at(cn.x as int, cn.y as int) != WALL
                            && seen.spec_at(cn.x as int, cn.y as int) == false implies
                        neighbors@.contains(cn) by {
                        if d2 < d {
                            assert(neighbors0.contains(cn));
                            let t = choose|t: int|
                                0 <= t < neighbors0.len() && neighbors0[t] == cn;
                            assert(neighbors@[t] == cn);
                        } else {
                            // the direction just scanned: a valid unseen
                            // open cell there was collected
                            assert(cn.grid == gi);
                            assert(neighbors@[neighbors@.len() - 1] == cn);
                        }
                    }
                }
                d = d + 1;
            }

            if cur_steps > 0 && neighbors.len() > 1 {
                // we're at a junction: the two unseen corridors ahead and the
                // seen corridor behind make three ways meeting here
                proof {
                    assert(cur_steps == steps && cur_start == start);
                    assert(has_seen_neighbor(*grid, *seen, pos));
                    let c3 = choose|cn: Node|
                        #[trigger] adjacent_cells(pos, cn) && open_at(
                            *grid,
                            cn.x as int,
                            cn.y as int,
                        ) && seen.spec_at(cn.x as int, cn.y as int) == true;
                    let c1 = neighbors@[0];
                    let c2 = neighbors@[1];
                    assert(c1 != c3 && c2 != c3);
                    lemma_three_neighbors(*grid, pos, c1, c2, c3);
                    assert(node_cell(*grid, pos));
                    lemma_corridor_reverse(*grid, gi, cur_start, pos, cur_steps);
                }
                let ghost g_before = *graph;
                graph.add_edge(cur_start, pos, cur_steps);
                proof {
                    lemma_step_extends(g_before, *graph, *grid, gi, cur_start, pos, cur_steps);
                    lemma_extends_trans(g_init, g_before, *graph, *grid, gi);
                }
                cur_start = pos;
                cur_steps = 0;
                proof {
                    let p0 = seq![pos];
                    assert(is_corridor_walk(*grid, gi, p0));
                    assert(corridor_between(*grid, gi, pos, pos, 0));
                }
            }

            proof {
                if special_cell(*grid, pos.x, pos.y) {
                    // a special cell always anchors its own departures
                    assert(cur_start == pos && cur_steps == 0);
                }
            }
            // continue with all neighbors; push them in reverse so that they
            // are expanded in the order they were found
            let ghost stack_mid = stack@;
            if cur_steps < usize::MAX {
                let mut k: usize = neighbors.len();
                while k > 0
                    invariant
                        grid.wf(),
                        width == grid.width,
                        height == grid.height,
                        k <= neighbors@.len(),
                        cur_steps < usize::MAX,
                        face_node(*grid, gi, cur_start),
                        face_node(*grid, gi, pos),
                        node_cell(*grid, cur_start),
                        corridor_between(*grid, gi, cur_start, pos, cur_steps),
                        seen.spec_at(pos.x as int, pos.y as int) == true,
                        forall|j: int|
                            0 <= j < neighbors@.len() ==> face_node(
                                *grid,
                                gi,
                                #[trigger] neighbors@[j],
                            ) && adjacent_cells(pos, neighbors@[j]),
                        forall|j: int|
                            0 <= j < stack@.len() ==> face_node(*grid, gi, (#[trigger] stack@[j]).0)
                                && face_node(*grid, gi, stack@[j].2) && node_cell(
                                *grid,
                                stack@[j].2,
                            ) && corridor_between(
                                *grid,
                                gi,
                                stack@[j].2,
                                stack@[j].0,
                                stack@[j].1,
                            ) && (stack@[j].1 > 0 ==> has_seen_neighbor(
                                *grid,
                                *seen,
                                stack@[j].0,
                            )),
                        stack_mid.len() <= stack@.len(),
                        forall|j: int| 0 <= j < stack_mid.len() ==> stack@[j] == stack_mid[j],
                        forall|j: int|
                            k <= j < neighbors@.len() ==> stack_has_item(
                                stack@,
                                #[trigger] neighbors@[j],
                                (cur_steps + 1) as usize,
                                cur_start,
                            ),
                    decreases k,
                {
                    k = k - 1;
                    proof {
                        lemma_corridor_extend(
                            *grid,
                            gi,
                            cur_start,
                            pos,
                            cur_steps,
                            neighbors@[k as int],
                        );
                        assert(open_at(*grid, pos.x as int, pos.y as int));
                        assert(adjacent_cells(neighbors@[k as int], pos));
                        assert(has_seen_neighbor(*grid, *seen, neighbors@[k as int]));
                    }
                    let ghost stack_pre = stack@;
                    stack.push((neighbors[k], cur_steps + 1, cur_start));
                    proof {
                        assert(stack@[stack@.len() - 1] == ((
                        neighbors@[k as int],
                        (cur_steps + 1) as usize,
                        cur_start,
                        )));
                        assert forall|j: int|
                            k <= j < neighbors@.len() implies stack_has_item(
                            stack@,
                            #[trigger] neighbors@[j],
                            (cur_steps + 1) as usize,
                            cur_start,
                        ) by {
                            if j > k {
                                let k2 = choose|k2: int|
                                    0 <= k2 < stack_pre.len() && #[trigger] stack_pre[k2] == ((
                                    neighbors@[j],
                                    (cur_steps + 1) as usize,
                                    cur_start,
                                    ));
                                assert(stack@[k2] == stack_pre[k2]);
                            }
                        }
                    }
                }
            }
            proof {
                if steps == 1 && special_cell(*grid, pos.x, pos.y) {
                    assert(graph.edge_count(start, pos, 1) >= 1);
                }
                if special_cell(*grid, pos.x, pos.y) {
                    assert(cur_start == pos && cur_steps == 0);
                    assert forall|cn: Node, d2: int|
                        0 <= d2 < 4 && #[trigger] matches_dir(pos, cn, d2) && cn.x < width
                            && cn.y < height && grid.spec_at(cn.x as int, cn.y as int) != WALL
                            && seen.spec_at(cn.x as int, cn.y as int) == false implies
                        stack_has_item(stack@, cn, 1usize, pos) by {
                        assert(neighbors@.contains(cn));
                        let j = choose|j: int|
                            0 <= j < neighbors@.len() && neighbors@[j] == cn;
                        assert(stack_has_item(stack@, neighbors@[j], 1usize, pos));
                    }
                }
                lemma_linked_after_expand(
                    *grid,
                    gi,
                    seen0,
                    *seen,
                    g_iter0,
                    *graph,
                    stack0,
                    stack_mid,
                    stack@,
                    pos,
                    steps,
                    start,
                );
                assert(old(seen).grid@.len() == seen0.grid@.len());
                assert forall|ii: int|
                    0 <= ii < old(seen).grid@.len() && old(seen).grid@[ii] == true implies
                    seen.grid@[ii] == true by {
                    assert(seen0.grid@[ii] == true);
                    assert(seen.grid@ == seen0.grid@.update(
                        pos.y as int * width as int + pos.x as int,
                        true,
                    ));
                    if ii == pos.y as int * width as int + pos.x as int {
                        assert(seen.grid@[ii] == true);
                    } else {
                        assert(seen.grid@[ii] == seen0.grid@[ii]);
                    }
                }
                if !(seen.spec_at(s.x as int, s.y as int) == true) {
                    lemma_cell_index(s.x as int, s.y as int, width as int, height as int);
                    // the walk's own start is either marked or still pending
                    assert(seen0.spec_at(s.x as int, s.y as int) == false) by {
                        if seen0.spec_at(s.x as int, s.y as int) == true {
                            assert(seen.grid@[s.y as int * width as int + s.x as int]
                                == true);
                        }
                    }
                    let k = choose|k: int|
                        0 <= k < stack0.len() && #[trigger] stack0[k] == ((s, 0usize, s));
                    if k == stack0.len() - 1 {
                        assert((pos, steps, start) == ((s, 0usize, s)));
                        assert(pos == s);
                        assert(seen.grid@[s.y as int * width as int + s.x as int] == true);
                        assert(false);
                    } else {
                        assert(stack@[k] == stack_mid[k]);
                        assert(stack_mid[k] == stack0[k]);
                    }
                }
            }
        }
    }
}

} // verus!
