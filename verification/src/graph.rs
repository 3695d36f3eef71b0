//! Sparse weighted graphs stored as adjacency lists with unique node keys.
//!
//! A graph maps each node to an ordered list of outgoing edges.  The graph
//! is kept undirected by inserting the mirror edge whenever one is added and
//! removing it symmetrically: the predicate [`Graph::symmetric`] states that
//! for every pair of nodes and every weight, both directions hold the same
//! number of edges.

use vstd::prelude::*;

use crate::grid::{Edge, Node};

verus! {

/// How many edges of the list point at `to` with weight `w`.
pub open spec fn count_edges(es: Seq<Edge>, to: Node, w: usize) -> nat
    decreases es.len(),
{
    if es.len() == 0 {
        0
    } else {
        count_edges(es.drop_last(), to, w) + (if es.last().to == to && es.last().steps == w {
            1nat
        } else {
            0nat
        })
    }
}

/// Appending an edge raises exactly the matching count by one.
pub proof fn lemma_count_push(es: Seq<Edge>, e: Edge, to: Node, w: usize)
    ensures
        count_edges(es.push(e), to, w) == count_edges(es, to, w) + (if e.to == to && e.steps == w {
            1int
        } else {
            0int
        }),
{
    assert(es.push(e).drop_last() =~= es);
    assert(es.push(e).last() == e);
}

/// Removing the edge at one index lowers exactly the matching count by one.
pub proof fn lemma_count_remove(es: Seq<Edge>, i: int, to: Node, w: usize)
    requires
        0 <= i < es.len(),
    ensures
        count_edges(es.remove(i), to, w) == count_edges(es, to, w) - (if es[i].to == to
            && es[i].steps == w {
            1int
        } else {
            0int
        }),
    decreases es.len(),
{
    if i == es.len() - 1 {
        assert(es.remove(i) =~= es.drop_last());
    } else {
        lemma_count_remove(es.drop_last(), i, to, w);
        assert(es.remove(i).drop_last() =~= es.drop_last().remove(i));
        assert(es.remove(i).last() == es.last());
    }
}

/// Every edge of the list is counted.
pub proof fn lemma_count_member(es: Seq<Edge>, j: int)
    requires
        0 <= j < es.len(),
    ensures
        count_edges(es, es[j].to, es[j].steps) >= 1,
    decreases es.len(),
{
    if j < es.len() - 1 {
        lemma_count_member(es.drop_last(), j);
    }
}

/// A positive count names an edge in the list.
pub proof fn lemma_count_exists(es: Seq<Edge>, to: Node, w: usize)
    requires
        count_edges(es, to, w) >= 1,
    ensures
        exists|j: int| 0 <= j < es.len() && es[j].to == to && es[j].steps == w,
    decreases es.len(),
{
    if es.last().to == to && es.last().steps == w {
        assert(es[es.len() - 1].to == to && es[es.len() - 1].steps == w);
    } else {
        lemma_count_exists(es.drop_last(), to, w);
        let j = choose|j: int|
            0 <= j < es.drop_last().len() && es.drop_last()[j].to == to && es.drop_last()[j].steps
                == w;
        assert(es[j].to == to && es[j].steps == w);
    }
}

/// A graph: a mapping from nodes to ordered adjacency lists.
pub struct Graph {
    /// One entry per node: the node and its outgoing edges.
    pub entries: Vec<(Node, Vec<Edge>)>,
}

impl Graph {
    /// The nodes, in storage order.
    pub open spec fn key_seq(&self) -> Seq<Node> {
        self.entries@.map_values(|p: (Node, Vec<Edge>)| p.0)
    }

    /// Whether the node has an adjacency list.
    pub open spec fn has_key(&self, n: Node) -> bool {
        self.key_seq().contains(n)
    }

    /// The storage index of a node.
    pub open spec fn key_index(&self, n: Node) -> int {
        choose|i: int| 0 <= i < self.entries@.len() && self.entries@[i].0 == n
    }

    /// The adjacency list of a node; empty for an absent node.
    pub open spec fn edges_of(&self, n: Node) -> Seq<Edge> {
        if self.has_key(n) {
            self.entries@[self.key_index(n)].1@
        } else {
            Seq::empty()
        }
    }

    /// The number of edges leaving a node.
    pub open spec fn degree(&self, n: Node) -> nat {
        self.edges_of(n).len()
    }

    /// Each node occurs at most once.
    pub open spec fn wf(&self) -> bool {
        self.key_seq().no_duplicates()
    }

    /// How many edges run from `a` to `b` with weight `w`.
    pub open spec fn edge_count(&self, a: Node, b: Node, w: usize) -> nat {
        count_edges(self.edges_of(a), b, w)
    }

    /// The graph is undirected: both directions of every edge are stored,
    /// with equal weights and multiplicities.
    pub open spec fn symmetric(&self) -> bool {
        forall|a: Node, b: Node, w: usize| #[trigger]
            self.edge_count(a, b, w) == self.edge_count(b, a, w)
    }

    /// A storage index addresses its own key.
    pub proof fn lemma_key_at(&self, i: int)
        requires
            self.wf(),
            0 <= i < self.entries@.len(),
        ensures
            self.has_key(self.entries@[i].0),
            self.key_index(self.entries@[i].0) == i,
            self.edges_of(self.entries@[i].0) == self.entries@[i].1@,
    {
        let n = self.entries@[i].0;
        assert(self.key_seq()[i] == n);
        assert(self.has_key(n));
        let j = self.key_index(n);
        assert(0 <= j < self.entries@.len() && self.entries@[j].0 == n);
        assert(self.key_seq()[j] == n);
        if i != j {
            assert(false);
        }
    }

    /// A present key's storage index addresses it.
    pub proof fn lemma_has_key_index(&self, n: Node)
        requires
            self.wf(),
            self.has_key(n),
        ensures
            0 <= self.key_index(n) < self.entries@.len(),
            self.entries@[self.key_index(n)].0 == n,
            self.edges_of(n) == self.entries@[self.key_index(n)].1@,
    {
        let k = choose|k: int| 0 <= k < self.key_seq().len() && self.key_seq()[k] == n;
        assert(self.entries@[k].0 == n);
        assert(0 <= self.key_index(n) < self.entries@.len() && self.entries@[self.key_index(n)].0
            == n);
    }

    /// An absent node has no outgoing edges, so a present edge names a
    /// present source.
    pub proof fn lemma_absent_no_edges(&self, a: Node, b: Node, w: usize)
        requires
            !self.has_key(a),
        ensures
            self.edge_count(a, b, w) == 0,
    {
    }

    /// Create an empty graph
    pub fn new() -> (r: Graph)
        ensures
            r.wf(),
            r.symmetric(),
            r.entries@.len() == 0,
            r.key_seq() == Seq::<Node>::empty(),
            forall|n: Node| !r.has_key(n),
            forall|n: Node| #[trigger] r.edges_of(n) == Seq::<Edge>::empty(),
    {
        let g = Graph { entries: Vec::new() };
        proof {
            assert(g.key_seq() =~= Seq::<Node>::empty());
            assert(forall|n: Node| !g.has_key(n));
            assert(forall|a: Node, b: Node, w: usize| #[trigger]
                g.edge_count(a, b, w) == 0);
        }
        g
    }

    /// The number of nodes
    pub fn len(&self) -> (r: usize)
        ensures
            r == self.entries@.len(),
    {
        self.entries.len()
    }

    /// The node stored at the given index
    pub fn node_at(&self, i: usize) -> (r: Node)
        requires
            i < self.entries@.len(),
        ensures
            r == self.key_seq()[i as int],
    {
        self.entries[i].0
    }

    /// The adjacency list stored at the given index
    pub fn edges_at(&self, i: usize) -> (r: &Vec<Edge>)
        requires
            i < self.entries@.len(),
        ensures
            r@ == self.entries@[i as int].1@,
            self.wf() ==> r@ == self.edges_of(self.key_seq()[i as int]),
    {
        proof {
            if self.wf() {
                self.lemma_key_at(i as int);
            }
        }
        &self.entries[i].1
    }

    /// Find the storage index of a node
    pub fn index_of(&self, n: Node) -> (r: Option<usize>)
        ensures
            match r {
                Some(i) => i < self.entries@.len() && self.entries@[i as int].0 == n,
                None => !self.has_key(n),
            },
    {
        let mut i: usize = 0;
        let len = self.entries.len();
        while i < len
            invariant
                i <= len,
                len == self.entries@.len(),
                forall|j: int| 0 <= j < i ==> self.entries@[j].0 != n,
            decreases len - i,
        {
            if self.entries[i].0 == n {
                return Some(i);
            }
            i = i + 1;
        }
        proof {
            assert(forall|j: int| 0 <= j < self.key_seq().len() ==> self.key_seq()[j] != n);
        }
        None
    }

    /// The adjacency list of a node, if present
    pub fn get_edges(&self, n: Node) -> (r: Option<&Vec<Edge>>)
        requires
            self.wf(),
        ensures
            match r {
                Some(v) => self.has_key(n) && v@ == self.edges_of(n),
                None => !self.has_key(n),
            },
    {
        match self.index_of(n) {
            Some(i) => {
                proof {
                    self.lemma_key_at(i as int);
                }
                Some(&self.entries[i].1)
            },
            None => None,
        }
    }

    /// Append one directed edge, creating the source's entry if needed
    pub fn push_edge(&mut self, from: Node, e: Edge)
        requires
            old(self).wf(),
        ensures
            final(self).wf(),
            final(self).has_key(from),
            final(self).edges_of(from) == old(self).edges_of(from).push(e),
            forall|m: Node| m != from ==> #[trigger] final(self).edges_of(m) == old(self).edges_of(m),
            forall|m: Node| #[trigger]
                final(self).has_key(m) == (old(self).has_key(m) || m == from),
            final(self).key_seq() == if old(self).has_key(from) {
                old(self).key_seq()
            } else {
                old(self).key_seq().push(from)
            },
    {
        let ghost g0 = *self;
        match self.index_of(from) {
            Some(i) => {
                proof {
                    g0.lemma_key_at(i as int);
                }
                self.entries[i].1.push(e);
                proof {
                    assert(self.key_seq() =~= g0.key_seq());
                    assert forall|m: Node| #[trigger] self.has_key(m) == (g0.has_key(m) || m
                        == from) by {}
                    self.lemma_key_at(i as int);
                    assert(self.edges_of(from) =~= g0.edges_of(from).push(e));
                    assert forall|m: Node| m != from implies #[trigger] self.edges_of(m)
                        == g0.edges_of(m) by {
                        if g0.has_key(m) {
                            g0.lemma_has_key_index(m);
                            let j = g0.key_index(m);
                            self.lemma_key_at(j);
                        }
                    }
                }
            },
            None => {
                let mut v: Vec<Edge> = Vec::new();
                v.push(e);
                self.entries.push((from, v));
                proof {
                    let len0 = g0.entries@.len() as int;
                    assert(self.key_seq() =~= g0.key_seq().push(from));
                    assert forall|p: int, q: int|
                        0 <= p < self.key_seq().len() && 0 <= q < self.key_seq().len() && p
                            != q implies self.key_seq()[p] != self.key_seq()[q] by {
                        if self.key_seq()[p] == self.key_seq()[q] {
                            if p < len0 && q < len0 {
                                assert(g0.key_seq()[p] == g0.key_seq()[q]);
                            } else if p == len0 {
                                assert(g0.key_seq()[q] == from);
                                assert(g0.has_key(from));
                            } else {
                                assert(g0.key_seq()[p] == from);
                                assert(g0.has_key(from));
                            }
                        }
                    }
                    assert(self.wf());
                    assert forall|m: Node| #[trigger] self.has_key(m) == (g0.has_key(m) || m
                        == from) by {
                        if self.has_key(m) {
                            let k = choose|k: int|
                                0 <= k < self.key_seq().len() && self.key_seq()[k] == m;
                            if k < len0 {
                                assert(g0.key_seq()[k] == m);
                                assert(g0.has_key(m));
                            } else {
                                assert(m == from);
                            }
                        }
                        if g0.has_key(m) {
                            let k = choose|k: int|
                                0 <= k < g0.key_seq().len() && g0.key_seq()[k] == m;
                            assert(self.key_seq()[k] == m);
                            assert(self.has_key(m));
                        }
                        if m == from {
                            assert(self.key_seq()[len0] == from);
                            assert(self.has_key(from));
                        }
                    }
                    self.lemma_key_at(len0);
                    assert(self.edges_of(from) =~= g0.edges_of(from).push(e));
                    assert forall|m: Node| m != from implies #[trigger] self.edges_of(m)
                        == g0.edges_of(m) by {
                        if g0.has_key(m) {
                            g0.lemma_has_key_index(m);
                            let j = g0.key_index(m);
                            self.lemma_key_at(j);
                        }
                    }
                }
            },
        }
    }

    /// Add an undirected edge: one directed edge and its mirror
    pub fn add_edge(&mut self, a: Node, b: Node, w: usize)
        requires
            old(self).wf(),
        ensures
            final(self).wf(),
            final(self).has_key(a),
            final(self).has_key(b),
            forall|m: Node| #[trigger]
                final(self).has_key(m) == (old(self).has_key(m) || m == a || m == b),
            forall|m: Node| m != a && m != b ==> #[trigger] final(self).edges_of(m) == old(self).edges_of(m),
            forall|x: Node, y: Node, v: usize| #[trigger]
                final(self).edge_count(x, y, v) == old(self).edge_count(x, y, v) + (if x == a && y
                    == b && v == w {
                    1int
                } else {
                    0int
                }) + (if x == b && y == a && v == w {
                    1int
                } else {
                    0int
                }),
            old(self).symmetric() ==> final(self).symmetric(),
    {
        let ghost g0 = *self;
        self.push_edge(a, Edge { to: b, steps: w });
        let ghost g1 = *self;
        self.push_edge(b, Edge { to: a, steps: w });
        proof {
            assert forall|x: Node, y: Node, v: usize| #[trigger]
                self.edge_count(x, y, v) == g0.edge_count(x, y, v) + (if x == a && y == b && v == w {
                    1int
                } else {
                    0int
                }) + (if x == b && y == a && v == w {
                    1int
                } else {
                    0int
                }) by {
                lemma_count_push(g0.edges_of(a), Edge { to: b, steps: w }, y, v);
                lemma_count_push(g1.edges_of(b), Edge { to: a, steps: w }, y, v);
                if x == a && x == b {
                    assert(g1.edges_of(x) == g0.edges_of(x).push(Edge { to: b, steps: w }));
                    assert(self.edges_of(x) == g1.edges_of(x).push(Edge { to: a, steps: w }));
                } else if x == a {
                    assert(self.edges_of(a) == g1.edges_of(a));
                    assert(g1.edges_of(a) == g0.edges_of(a).push(Edge { to: b, steps: w }));
                } else if x == b {
                    assert(g1.edges_of(b) == g0.edges_of(b));
                    assert(self.edges_of(b) == g1.edges_of(b).push(Edge { to: a, steps: w }));
                } else {
                    assert(self.edges_of(x) == g0.edges_of(x));
                }
            }
        }
    }

    /// Remove a node together with its adjacency list
    pub fn remove_key(&mut self, n: Node) -> (r: Option<Vec<Edge>>)
        requires
            old(self).wf(),
        ensures
            final(self).wf(),
            !final(self).has_key(n),
            forall|m: Node| m != n ==> #[trigger] final(self).has_key(m) == old(self).has_key(m),
            forall|m: Node| m != n ==> #[trigger] final(self).edges_of(m) == old(self).edges_of(m),
            final(self).edges_of(n) == Seq::<Edge>::empty(),
            match r {
                Some(v) => old(self).has_key(n) && v@ == old(self).edges_of(n) && final(self).entries@.len() == old(self).entries@.len() - 1,
                None => !old(self).has_key(n) && *final(self) == *old(self),
            },
    {
        let ghost g0 = *self;
        match self.index_of(n) {
            Some(i) => {
                proof {
                    g0.lemma_key_at(i as int);
                }
                let (_, v) = self.entries.swap_remove(i);
                proof {
                    let len0 = g0.entries@.len();
                    // after swap_remove, entry i holds the old last entry
                    // (unless i was last), and the rest are unchanged
                    assert(self.key_seq() =~= if i as int == len0 - 1 {
                        g0.key_seq().drop_last()
                    } else {
                        g0.key_seq().update(i as int, g0.key_seq()[len0 - 1]).drop_last()
                    });
                    assert(self.wf()) by {
                        assert forall|p: int, q: int|
                            0 <= p < q < self.key_seq().len() implies self.key_seq()[p]
                            != self.key_seq()[q] by {
                            assert(g0.key_seq().no_duplicates());
                        }
                    }
                    assert(!self.has_key(n)) by {
                        if self.has_key(n) {
                            let j = choose|k: int|
                                0 <= k < self.key_seq().len() && self.key_seq()[k] == n;
                            assert(g0.key_seq()[i as int] == n);
                            if i as int == len0 - 1 {
                                assert(g0.key_seq()[j] == n);
                                assert(j != i as int);
                            } else {
                                if j == i as int {
                                    assert(g0.key_seq()[len0 - 1] == n);
                                } else {
                                    assert(g0.key_seq()[j] == n);
                                }
                            }
                        }
                    }
                    assert forall|m: Node| m != n implies #[trigger] self.has_key(m)
                        == g0.has_key(m) by {
                        if self.has_key(m) {
                            let j = self.key_index(m);
                            self.lemma_key_at(j);
                            if i as int != len0 - 1 && j == i as int {
                                g0.lemma_key_at(len0 - 1);
                            } else {
                                g0.lemma_key_at(j);
                            }
                            assert(g0.has_key(m));
                        }
                        if g0.has_key(m) {
                            let j = g0.key_index(m);
                            g0.lemma_key_at(j);
                            if j == i as int {
                                assert(m == n);
                            } else if j == len0 - 1 {
                                assert(self.entries@[i as int].0 == m);
                                self.lemma_key_at(i as int);
                            } else {
                                assert(self.entries@[j].0 == m);
                                self.lemma_key_at(j);
                            }
                        }
                    }
                    assert forall|m: Node| m != n implies #[trigger] self.edges_of(m)
                        == g0.edges_of(m) by {
                        if g0.has_key(m) {
                            let j = g0.key_index(m);
                            g0.lemma_key_at(j);
                            if j == i as int {
                                assert(m == n);
                            } else if j == len0 - 1 {
                                assert(self.entries@[i as int] == g0.entries@[j]);
                                self.lemma_key_at(i as int);
                            } else {
                                self.lemma_key_at(j);
                            }
                        }
                    }
                }
                Some(v)
            },
            None => None,
        }
    }

    /// Remove the first edge from `from` whose target is `to`
    pub fn remove_edge_to(&mut self, from: Node, to: Node) -> (r: Option<Edge>)
        requires
            old(self).wf(),
        ensures
            final(self).wf(),
            final(self).key_seq() == old(self).key_seq(),
            forall|m: Node| #[trigger] final(self).has_key(m) == old(self).has_key(m),
            forall|m: Node| m != from ==> #[trigger] final(self).edges_of(m) == old(self).edges_of(m),
            match r {
                Some(e) => {
                    &&& e.to == to
                    &&& exists|j: int|
                        0 <= j < old(self).edges_of(from).len() && old(self).edges_of(from)[j] == e
                            && final(self).edges_of(from) == old(self).edges_of(from).remove(j)
                    &&& forall|y: Node, v: usize| #[trigger]
                        final(self).edge_count(from, y, v) == old(self).edge_count(from, y, v) - (
                        if y == e.to && v == e.steps {
                            1int
                        } else {
                            0int
                        })
                },
                None => {
                    &&& *final(self) == *old(self)
                    &&& forall|j: int|
                        0 <= j < old(self).edges_of(from).len() ==> (#[trigger] old(self).edges_of(from)[j]).to != to
                },
            },
    {
        let ghost g0 = *self;
        match self.index_of(from) {
            Some(i) => {
                proof {
                    g0.lemma_key_at(i as int);
                }
                let n_edges = self.entries[i].1.len();
                let mut j: usize = 0;
                while j < n_edges
                    invariant
                        j <= n_edges,
                        *self == g0,
                        g0 == *old(self),
                        i < g0.entries@.len(),
                        g0.wf(),
                        g0.entries@[i as int].0 == from,
                        g0.has_key(from),
                        g0.key_index(from) == i as int,
                        g0.edges_of(from) == g0.entries@[i as int].1@,
                        n_edges == g0.entries@[i as int].1@.len(),
                        forall|k: int|
                            0 <= k < j ==> (#[trigger] g0.entries@[i as int].1@[k]).to != to,
                    decreases n_edges - j,
                {
                    if self.entries[i].1[j].to == to {
                        let e = self.entries[i].1.remove(j);
                        proof {
                            assert(self.key_seq() =~= g0.key_seq());
                            self.lemma_key_at(i as int);
                            assert(self.edges_of(from) =~= g0.edges_of(from).remove(j as int));
                            assert forall|m: Node| m != from implies #[trigger] self.edges_of(m)
                                == g0.edges_of(m) by {
                                if g0.has_key(m) {
                                    g0.lemma_has_key_index(m);
                                    let k = g0.key_index(m);
                                    self.lemma_key_at(k);
                                }
                            }
                            assert forall|y: Node, v: usize| #[trigger]
                                self.edge_count(from, y, v) == g0.edge_count(from, y, v) - (if y
                                    == e.to && v == e.steps {
                                    1int
                                } else {
                                    0int
                                }) by {
                                lemma_count_remove(g0.edges_of(from), j as int, y, v);
                            }
                            assert forall|m: Node| #[trigger] self.has_key(m) == g0.has_key(
                                m,
                            ) by {}
                        }
                        return Some(e);
                    }
                    j = j + 1;
                }
                proof {
                    assert(g0.edges_of(from) == g0.entries@[i as int].1@);
                }
                None
            },
            None => {
                proof {
                    assert(g0.edges_of(from) =~= Seq::<Edge>::empty());
                }
                None
            },
        }
    }
}

} // verus!
