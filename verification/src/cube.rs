//! Cube sides and the canonical signatures of their edges.
//!
//! Each face of the cube carries four signatures, one per edge, listing the
//! boundary nodes of that edge together with their normalized positions
//! along it.  Two signatures match where the position of one equals the
//! mirrored position of the other, because two faces meeting at a fold are
//! traversed in opposite directions.

use vstd::prelude::*;

use crate::graph::Graph;
use crate::grid::Node;

verus! {

/// A direction on a cube side
#[derive(Clone, Copy, PartialEq, Eq, Structural, Debug)]
pub enum Direction {
    Top,
    Right,
    Bottom,
    Left,
}

/// The index of a direction in a side's signature table.
pub open spec fn dir_index(d: Direction) -> int {
    match d {
        Direction::Top => 0,
        Direction::Right => 1,
        Direction::Bottom => 2,
        Direction::Left => 3,
    }
}

/// The abstract value of a [`Signature`].
pub ghost struct SigView {
    /// The length of the edge the signature describes.
    pub width: int,
    /// The normalized positions of the boundary nodes, sorted ascending.
    pub positions: Seq<int>,
    /// The boundary nodes, ordered to pair with `positions`.
    pub nodes: Seq<Node>,
}

/// A canonical signature of a cube side edge
#[derive(PartialEq, Eq, Hash, Debug)]
pub struct Signature {
    /// The length of the edge
    pub width: usize,
    /// The normalized positions along the edge, sorted ascending
    pub signature: Vec<usize>,
    /// The nodes, ordered together with their positions
    pub nodes: Vec<Node>,
}

impl View for Signature {
    type V = SigView;

    open spec fn view(&self) -> SigView {
        SigView {
            width: self.width as int,
            positions: self.signature@.map_values(|p: usize| p as int),
            nodes: self.nodes@,
        }
    }
}

/// A well-formed signature: one position per node, strictly ascending, all
/// on the edge.
pub open spec fn wf_sig(v: SigView) -> bool {
    &&& v.positions.len() == v.nodes.len()
    &&& forall|i: int, j: int|
        0 <= i < j < v.positions.len() ==> #[trigger] v.positions[i] < #[trigger] v.positions[j]
    &&& forall|i: int| 0 <= i < v.positions.len() ==> 0 <= #[trigger] v.positions[i] < v.width
}

/// Positions `i` of one signature and `j` of another coincide under the
/// mirrored-position convention.
pub open spec fn match_at(a: SigView, b: SigView, i: int, j: int) -> bool {
    a.positions[i] + b.positions[j] == a.width - 1
}

/// Position `i` of `a` has a partner in `b`.
pub open spec fn has_partner(a: SigView, b: SigView, i: int) -> bool {
    exists|j: int| 0 <= j < b.positions.len() && match_at(a, b, i, j)
}

/// The partner of position `i` of `a` in `b`.
pub open spec fn partner(a: SigView, b: SigView, i: int) -> int {
    choose|j: int| 0 <= j < b.positions.len() && match_at(a, b, i, j)
}

/// The matched node pairs among the first `k` positions of `a`.
pub open spec fn prefix_pairs(a: SigView, b: SigView, k: int) -> Seq<(Node, Node)>
    decreases k,
{
    if k <= 0 {
        Seq::empty()
    } else {
        prefix_pairs(a, b, k - 1) + (if has_partner(a, b, k - 1) {
            seq![(a.nodes[k - 1], b.nodes[partner(a, b, k - 1)])]
        } else {
            Seq::<(Node, Node)>::empty()
        })
    }
}

/// All matched node pairs of two signatures, ordered by position in `a`.
pub open spec fn matched_pairs(a: SigView, b: SigView) -> Seq<(Node, Node)> {
    prefix_pairs(a, b, a.positions.len() as int)
}

/// In a well-formed signature the partner, where it exists, is unique.
pub proof fn lemma_partner_unique(a: SigView, b: SigView, i: int, j1: int, j2: int)
    requires
        wf_sig(b),
        0 <= j1 < b.positions.len(),
        0 <= j2 < b.positions.len(),
        match_at(a, b, i, j1),
        match_at(a, b, i, j2),
    ensures
        j1 == j2,
{
    if j1 < j2 {
        assert(b.positions[j1] < b.positions[j2]);
    }
    if j2 < j1 {
        assert(b.positions[j2] < b.positions[j1]);
    }
}

/// Every pair of `prefix_pairs` comes from a matching index pair, and every
/// matching index below the prefix bound contributes its pair.
pub proof fn lemma_prefix_pairs_member(a: SigView, b: SigView, k: int, t: int)
    requires
        0 <= t < prefix_pairs(a, b, k).len(),
    ensures
        exists|i: int|
            0 <= i < k && has_partner(a, b, i) && #[trigger] prefix_pairs(a, b, k)[t] == (
            a.nodes[i],
            b.nodes[partner(a, b, i)],
            ),
    decreases k,
{
    if k > 0 {
        if t < prefix_pairs(a, b, k - 1).len() {
            lemma_prefix_pairs_member(a, b, k - 1, t);
            let i = choose|i: int|
                0 <= i < k - 1 && has_partner(a, b, i) && #[trigger] prefix_pairs(a, b, k - 1)[t]
                    == (a.nodes[i], b.nodes[partner(a, b, i)]);
            assert(prefix_pairs(a, b, k)[t] == prefix_pairs(a, b, k - 1)[t]);
            assert(0 <= i < k && has_partner(a, b, i) && prefix_pairs(a, b, k)[t] == (
            a.nodes[i],
            b.nodes[partner(a, b, i)],
            ));
        } else {
            assert(has_partner(a, b, k - 1));
            assert(prefix_pairs(a, b, k)[t] == (a.nodes[k - 1], b.nodes[partner(a, b, k - 1)]));
        }
    }
}

/// A matching index pair contributes its node pair to `prefix_pairs`.
pub proof fn lemma_prefix_pairs_contains(a: SigView, b: SigView, k: int, i: int)
    requires
        0 <= i < k,
        has_partner(a, b, i),
    ensures
        prefix_pairs(a, b, k).contains((a.nodes[i], b.nodes[partner(a, b, i)])),
    decreases k,
{
    if i == k - 1 {
        let s = prefix_pairs(a, b, k);
        assert(s[s.len() - 1] == (a.nodes[k - 1], b.nodes[partner(a, b, k - 1)]));
    } else {
        lemma_prefix_pairs_contains(a, b, k - 1, i);
        let t = choose|t: int|
            0 <= t < prefix_pairs(a, b, k - 1).len() && #[trigger] prefix_pairs(a, b, k - 1)[t]
                == (a.nodes[i], b.nodes[partner(a, b, i)]);
        assert(prefix_pairs(a, b, k)[t] == (a.nodes[i], b.nodes[partner(a, b, i)]));
    }
}

/// Signature matching is symmetric: if matching `a` against `b` yields the
/// pair `(x, y)`, then matching `b` against `a` yields the pair `(y, x)`.
pub proof fn lemma_matches_symmetric(a: SigView, b: SigView, t: int)
    requires
        wf_sig(a),
        wf_sig(b),
        a.width == b.width,
        0 <= t < matched_pairs(a, b).len(),
    ensures
        matched_pairs(b, a).contains(
            (matched_pairs(a, b)[t].1, matched_pairs(a, b)[t].0),
        ),
{
    lemma_prefix_pairs_member(a, b, a.positions.len() as int, t);
    let i = choose|i: int|
        0 <= i < a.positions.len() && has_partner(a, b, i) && #[trigger] prefix_pairs(
            a,
            b,
            a.positions.len() as int,
        )[t] == (a.nodes[i], b.nodes[partner(a, b, i)]);
    let j = partner(a, b, i);
    assert(0 <= j < b.positions.len() && match_at(a, b, i, j));
    assert(match_at(b, a, j, i));
    assert(has_partner(b, a, j));
    let i2 = partner(b, a, j);
    assert(0 <= i2 < a.positions.len() && match_at(b, a, j, i2));
    assert(match_at(a, b, i2, j));
    lemma_partner_unique(b, a, j, i, i2);
    lemma_prefix_pairs_contains(b, a, b.positions.len() as int, j);
}

impl Signature {
    /// A deep copy with the same abstract value.
    pub fn duplicate(&self) -> (r: Signature)
        ensures
            r@ == self@,
    {
        let mut sig: Vec<usize> = Vec::new();
        let mut i: usize = 0;
        while i < self.signature.len()
            invariant
                i <= self.signature@.len(),
                sig@ == self.signature@.subrange(0, i as int),
            decreases self.signature@.len() - i,
        {
            sig.push(self.signature[i]);
            i = i + 1;
        }
        let mut nodes: Vec<Node> = Vec::new();
        let mut j: usize = 0;
        while j < self.nodes.len()
            invariant
                j <= self.nodes@.len(),
                nodes@ == self.nodes@.subrange(0, j as int),
            decreases self.nodes@.len() - j,
        {
            nodes.push(self.nodes[j]);
            j = j + 1;
        }
        proof {
            assert(sig@ =~= self.signature@);
            assert(nodes@ =~= self.nodes@);
            assert(sig@.map_values(|p: usize| p as int) =~= self.signature@.map_values(
                |p: usize| p as int,
            ));
        }
        Signature { width: self.width, signature: sig, nodes }
    }

    /// Get matching nodes between this signature and another signature.
    ///
    /// The other signature's positions are mirrored, because two faces
    /// meeting at a fold are traversed in opposite directions.  Returns
    /// `None` when no positions coincide.
    pub fn get_matches(&self, other: &Signature) -> (r: Option<Vec<(Node, Node)>>)
        requires
            wf_sig(self@),
            wf_sig(other@),
            self@.width == other@.width,
        ensures
            match r {
                Some(ps) => ps@ == matched_pairs(self@, other@) && ps@.len() >= 1,
                None => matched_pairs(self@, other@).len() == 0,
            },
    {
        let ghost a = self@;
        let ghost b = other@;
        let alen = self.signature.len();
        let blen = other.signature.len();
        if alen == 0 || blen == 0 {
            proof {
                lemma_prefix_no_partner(a, b, alen as int, 0);
            }
            return None;
        }
        let mut result: Vec<(Node, Node)> = Vec::new();
        let mut si: usize = 0;
        let mut oj: usize = blen - 1;
        let mut done = false;
        while si < alen && !done
            invariant
                wf_sig(a),
                wf_sig(b),
                a.width == b.width,
                a == self@,
                b == other@,
                alen == a.positions.len(),
                blen == b.positions.len(),
                blen >= 1,
                si <= alen,
                oj < blen,
                result@ == prefix_pairs(a, b, si as int),
                !done ==> forall|i: int, j: int|
                    si <= i < alen && oj < j < blen ==> !match_at(a, b, i, j),
                done ==> forall|i: int, j: int|
                    si <= i < alen && 0 <= j < blen ==> !match_at(a, b, i, j),
            decreases alen - si + (if done {
                0int
            } else {
                oj + 1
            }),
        {
            let s = self.signature[si];
            let o = other.signature[oj];
            proof {
                assert(a.positions == self.signature@.map_values(|p: usize| p as int));
                assert(a.positions[si as int] == s as int);
                assert(0 <= a.positions[si as int] < a.width);
                assert(b.positions == other.signature@.map_values(|p: usize| p as int));
                assert(b.positions[oj as int] == o as int);
                assert(0 <= b.positions[oj as int] < b.width);
            }
            let m = self.width - 1 - o;
            if s < m {
                proof {
                    assert(!has_partner(a, b, si as int)) by {
                        if has_partner(a, b, si as int) {
                            let j = choose|j: int|
                                0 <= j < b.positions.len() && match_at(a, b, si as int, j);
                            if j > oj {
                                assert(!match_at(a, b, si as int, j));
                            } else {
                                // positions of b ascend, so mirrored values
                                // at or below oj are at least m > s
                                assert(b.positions[j] <= b.positions[oj as int]);
                                assert(a.positions[si as int] + b.positions[j] < a.width - 1);
                            }
                        }
                    }
                    assert(prefix_pairs(a, b, si as int + 1) =~= prefix_pairs(a, b, si as int));
                }
                si = si + 1;
            } else if m < s {
                proof {
                    assert forall|i: int, j: int|
                        si <= i < alen && oj as int - 1 < j < blen implies !match_at(a, b, i, j) by {
                        if j == oj as int {
                            assert(a.positions[i] >= a.positions[si as int]);
                            assert(a.positions[i] + b.positions[j] > a.width - 1);
                        }
                    }
                }
                if oj == 0 {
                    done = true;
                } else {
                    oj = oj - 1;
                }
            } else {
                proof {
                    assert(match_at(a, b, si as int, oj as int));
                    assert(has_partner(a, b, si as int));
                    lemma_partner_unique(a, b, si as int, oj as int, partner(a, b, si as int));
                    assert(prefix_pairs(a, b, si as int + 1) =~= prefix_pairs(a, b, si as int)
                        + seq![(a.nodes[si as int], b.nodes[oj as int])]);
                }
                result.push((self.nodes[si], other.nodes[oj]));
                si = si + 1;
            }
        }
        proof {
            if si < alen {
                // the loop stopped because the partner side ran out
                assert forall|i: int| si <= i < alen implies !has_partner(a, b, i) by {
                    if has_partner(a, b, i) {
                        let j = choose|j: int|
                            0 <= j < b.positions.len() && match_at(a, b, i, j);
                        assert(!match_at(a, b, i, j));
                    }
                }
                lemma_prefix_no_partner(a, b, alen as int, si as int);
            }
            assert(result@ == matched_pairs(a, b));
        }
        if result.len() == 0 {
            None
        } else {
            Some(result)
        }
    }
}

/// Positions past a bound with no partner add nothing to the matched pairs.
proof fn lemma_prefix_no_partner(a: SigView, b: SigView, k: int, from: int)
    requires
        0 <= from <= k,
        forall|i: int| from <= i < k ==> !has_partner(a, b, i),
    ensures
        prefix_pairs(a, b, k) == prefix_pairs(a, b, from),
    decreases k - from,
{
    if from < k {
        lemma_prefix_no_partner(a, b, k - 1, from);
        assert(prefix_pairs(a, b, k) =~= prefix_pairs(a, b, k - 1));
    }
}

/// Whether a node lies on the given edge of a face.
pub open spec fn on_edge(dir: Direction, n: Node, width: int, height: int) -> bool {
    match dir {
        Direction::Top => n.y == 0,
        Direction::Right => n.x == width - 1,
        Direction::Bottom => n.y == height - 1,
        Direction::Left => n.x == 0,
    }
}

/// The normalized position of a node along the given edge.  The convention
/// follows a consistent clockwise traversal of the cube as seen from
/// outside, so that adjacent faces produce compatible orderings.
pub open spec fn edge_pos(dir: Direction, n: Node, width: int, height: int) -> int {
    match dir {
        Direction::Top => n.x as int,
        Direction::Right => n.y as int,
        Direction::Bottom => width - 1 - n.x,
        Direction::Left => height - 1 - n.y,
    }
}

/// The length of the given edge.
pub open spec fn edge_len(dir: Direction, width: int, height: int) -> int {
    match dir {
        Direction::Top => width,
        Direction::Right => height,
        Direction::Bottom => width,
        Direction::Left => height,
    }
}

impl Signature {
    /// Create a new signature from the given nodes, all lying on one edge:
    /// sort them by their normalized position along that edge.
    pub fn new(nodes: Vec<Node>, width: usize, height: usize, dir: Direction) -> (r: Signature)
        requires
            width >= 1,
            height >= 1,
            forall|k: int|
                0 <= k < nodes@.len() ==> (#[trigger] nodes@[k]).x < width && nodes@[k].y < height
                    && on_edge(dir, nodes@[k], width as int, height as int),
            forall|p: int, q: int| 0 <= p < q < nodes@.len() ==> nodes@[p] != nodes@[q],
            forall|p: int, q: int|
                0 <= p < nodes@.len() && 0 <= q < nodes@.len() ==> (#[trigger] nodes@[p]).grid == (
                #[trigger] nodes@[q]).grid,
        ensures
            wf_sig(r@),
            r@.width == edge_len(dir, width as int, height as int),
            r@.nodes.len() == nodes@.len(),
            forall|k: int|
                0 <= k < r@.nodes.len() ==> #[trigger] r@.positions[k] == edge_pos(
                    dir,
                    r@.nodes[k],
                    width as int,
                    height as int,
                ),
            r@.nodes.to_multiset() == nodes@.to_multiset(),
    {
        let ghost all = nodes@;
        let mut out_pos: Vec<usize> = Vec::new();
        let mut out_nodes: Vec<Node> = Vec::new();
        proof {
            assert(out_nodes@ =~= Seq::<Node>::empty());
            assert(all.subrange(0, 0) =~= Seq::<Node>::empty());
        }
        let mut k: usize = 0;
        while k < nodes.len()
            invariant
                width >= 1,
                height >= 1,
                k <= all.len(),
                nodes@ == all,
                forall|t: int|
                    0 <= t < all.len() ==> (#[trigger] all[t]).x < width && all[t].y < height
                        && on_edge(dir, all[t], width as int, height as int),
                forall|p: int, q: int| 0 <= p < q < all.len() ==> all[p] != all[q],
                forall|p: int, q: int|
                    0 <= p < all.len() && 0 <= q < all.len() ==> (#[trigger] all[p]).grid == (
                    #[trigger] all[q]).grid,
                out_pos@.len() == k,
                out_nodes@.len() == k,
                forall|p: int, q: int|
                    0 <= p < q < k ==> (#[trigger] out_pos@[p]) < (#[trigger] out_pos@[q]),
                forall|t: int|
                    0 <= t < k ==> #[trigger] out_pos@[t] == edge_pos(
                        dir,
                        out_nodes@[t],
                        width as int,
                        height as int,
                    ) && 0 <= out_pos@[t] < edge_len(dir, width as int, height as int),
                out_nodes@.to_multiset() == all.subrange(0, k as int).to_multiset(),
                forall|t: int|
                    0 <= t < k ==> exists|j: int| 0 <= j < k && all[j] == #[trigger] out_nodes@[t],
            decreases all.len() - k,
        {
            let n = nodes[k];
            let p: usize = match dir {
                Direction::Top => n.x,
                Direction::Right => n.y,
                Direction::Bottom => width - 1 - n.x,
                Direction::Left => height - 1 - n.y,
            };
            let mut idx: usize = 0;
            while idx < k && out_pos[idx] < p
                invariant
                    idx <= k,
                    out_pos@.len() == k,
                    forall|t: int| 0 <= t < idx ==> (#[trigger] out_pos@[t]) < p,
                decreases k - idx,
            {
                idx = idx + 1;
            }
            proof {
                // the new position cannot already be present: positions on
                // one edge determine the node, and the nodes are distinct
                if idx < k && out_pos@[idx as int] == p {
                    let t = idx as int;
                    let j = choose|j: int| 0 <= j < k && all[j] == out_nodes@[t];
                    assert(all[j] != all[k as int]);
                    assert(edge_pos(dir, all[j], width as int, height as int) == edge_pos(
                        dir,
                        all[k as int],
                        width as int,
                        height as int,
                    ));
                    assert(all[j].grid == all[k as int].grid);
                    assert(false);
                }
            }
            let ghost out_pos0 = out_pos@;
            let ghost out_nodes0 = out_nodes@;
            out_pos.insert(idx, p);
            out_nodes.insert(idx, n);
            proof {
                vstd::seq_lib::to_multiset_insert(out_nodes0, idx as int, n);
                vstd::seq_lib::to_multiset_build(all.subrange(0, k as int), all[k as int]);
                assert(all.subrange(0, k as int).push(all[k as int]) =~= all.subrange(
                    0,
                    k as int + 1,
                ));
                assert forall|t: int| 0 <= t < k + 1 implies exists|j: int|
                    0 <= j < k + 1 && all[j] == #[trigger] out_nodes@[t] by {
                    if t < idx {
                        assert(out_nodes@[t] == out_nodes0[t]);
                        let j = choose|j: int| 0 <= j < k && all[j] == out_nodes0[t];
                        assert(all[j] == out_nodes@[t]);
                    } else if t == idx {
                        assert(out_nodes@[t] == all[k as int]);
                    } else {
                        assert(out_nodes@[t] == out_nodes0[t - 1]);
                        let j = choose|j: int| 0 <= j < k && all[j] == out_nodes0[t - 1];
                        assert(all[j] == out_nodes@[t]);
                    }
                }
            }
            k = k + 1;
        }
        proof {
            assert(all.subrange(0, all.len() as int) =~= all);
        }
        let r = Signature { width: if matches!(dir, Direction::Top | Direction::Bottom) {
            width
        } else {
            height
        }, signature: out_pos, nodes: out_nodes };
        proof {
            assert(r@.positions =~= out_pos@.map_values(|p0: usize| p0 as int));
        }
        r
    }
}

/// A cube side: one signature for each of its four edges, indexed by
/// [`Direction`].
#[derive(PartialEq, Eq, Hash, Debug)]
pub struct Side {
    /// The signatures of the side's edges ordered by [`Direction`]
    pub signatures: Vec<Signature>,
}

impl View for Side {
    type V = Seq<SigView>;

    open spec fn view(&self) -> Seq<SigView> {
        self.signatures@.map_values(|s: Signature| s@)
    }
}

/// A well-formed side: four well-formed signatures of one common edge
/// length, as a square face produces them.
pub open spec fn wf_side(v: Seq<SigView>) -> bool {
    &&& v.len() == 4
    &&& forall|i: int| 0 <= i < 4 ==> wf_sig(#[trigger] v[i])
    &&& forall|i: int| 0 <= i < 4 ==> (#[trigger] v[i]).width == v[0].width
}

/// The side's signature table cyclically shifted right by `n`.
pub open spec fn rotate_side(v: Seq<SigView>, n: int) -> Seq<SigView> {
    Seq::new(4, |i: int| v[(i - n + 4) % 4])
}

/// The shift that moves the edge addressed as `from` to be addressed as
/// `to`.
pub open spec fn rot_shift(from: Direction, to: Direction) -> int {
    (dir_index(to) - dir_index(from) + 4) % 4
}

/// Rotating a side one way and then back returns the original side.
pub proof fn lemma_rotate_round_trip(v: Seq<SigView>, d1: Direction, d2: Direction)
    requires
        v.len() == 4,
    ensures
        rotate_side(rotate_side(v, rot_shift(d1, d2)), rot_shift(d2, d1)) == v,
{
    let n1 = rot_shift(d1, d2);
    let n2 = rot_shift(d2, d1);
    assert(0 <= n1 < 4);
    assert(0 <= n2 < 4);
    assert((n1 + n2) % 4 == 0);
    assert forall|i: int| 0 <= i < 4 implies rotate_side(rotate_side(v, n1), n2)[i] == v[i] by {
        let j = (i - n2 + 4) % 4;
        assert(0 <= j < 4);
        assert(rotate_side(rotate_side(v, n1), n2)[i] == rotate_side(v, n1)[j]);
        assert(rotate_side(v, n1)[j] == v[(j - n1 + 4) % 4]);
        assert((j - n1 + 4) % 4 == i);
    }
    assert(rotate_side(rotate_side(v, n1), n2) =~= v);
}

impl Side {
    /// Get the signature of the edge in the given direction
    pub fn get_signature(&self, dir: Direction) -> (r: &Signature)
        requires
            self.signatures@.len() == 4,
        ensures
            r@ == self@[dir_index(dir)],
    {
        match dir {
            Direction::Top => &self.signatures[0],
            Direction::Right => &self.signatures[1],
            Direction::Bottom => &self.signatures[2],
            Direction::Left => &self.signatures[3],
        }
    }

    /// Rotate the side so that the edge in direction `from` becomes the
    /// edge in direction `to`
    pub fn to_rotated(&self, from: Direction, to: Direction) -> (r: Side)
        requires
            self.signatures@.len() == 4,
        ensures
            r@ == rotate_side(self@, rot_shift(from, to)),
            r.signatures@.len() == 4,
    {
        let fi = dir_usize(from);
        let ti = dir_usize(to);
        let shift = (ti + 4 - fi) % 4;
        let mut sigs: Vec<Signature> = Vec::new();
        let mut i: usize = 0;
        while i < 4
            invariant
                fi == dir_index(from),
                ti == dir_index(to),
                shift == rot_shift(from, to),
                shift < 4,
                self.signatures@.len() == 4,
                i <= 4,
                sigs@.len() == i,
                forall|t: int|
                    0 <= t < i ==> (#[trigger] sigs@[t])@ == self@[(t - shift + 4) % 4],
            decreases 4 - i,
        {
            let src = (i + 4 - shift) % 4;
            proof {
                assert(src as int == (i as int - shift + 4) % 4);
                assert(src < 4);
            }
            sigs.push(self.signatures[src].duplicate());
            i = i + 1;
        }
        let r = Side { signatures: sigs };
        proof {
            assert(r@ =~= rotate_side(self@, rot_shift(from, to)));
        }
        r
    }
}

/// The exec value of a direction's table index.
fn dir_usize(d: Direction) -> (r: usize)
    ensures
        r == dir_index(d),
{
    match d {
        Direction::Top => 0,
        Direction::Right => 1,
        Direction::Bottom => 2,
        Direction::Left => 3,
    }
}

/// All keys of the graph that lie on the given edge of the face, each
/// exactly once.
fn collect_edge_nodes(graph: &Graph, dir: Direction, width: usize, height: usize) -> (r: Vec<
    Node,
>)
    requires
        graph.wf(),
        width >= 1,
        height >= 1,
    ensures
        forall|t: int|
            0 <= t < r@.len() ==> graph.has_key(#[trigger] r@[t]) && on_edge(
                dir,
                r@[t],
                width as int,
                height as int,
            ),
        forall|n: Node|
            #[trigger] graph.has_key(n) && on_edge(dir, n, width as int, height as int)
                ==> r@.contains(n),
        forall|p: int, q: int| 0 <= p < q < r@.len() ==> r@[p] != r@[q],
{
    let mut r: Vec<Node> = Vec::new();
    let len = graph.len();
    let mut i: usize = 0;
    while i < len
        invariant
            graph.wf(),
            width >= 1,
            height >= 1,
            len == graph.entries@.len(),
            i <= len,
            forall|t: int|
                0 <= t < r@.len() ==> graph.has_key(#[trigger] r@[t]) && on_edge(
                    dir,
                    r@[t],
                    width as int,
                    height as int,
                ),
            forall|t: int|
                0 <= t < r@.len() ==> exists|j: int|
                    0 <= j < i && graph.key_seq()[j] == #[trigger] r@[t],
            forall|j: int|
                0 <= j < i && on_edge(dir, #[trigger] graph.key_seq()[j], width as int, height as int)
                    ==> r@.contains(graph.key_seq()[j]),
            forall|p: int, q: int| 0 <= p < q < r@.len() ==> r@[p] != r@[q],
        decreases len - i,
    {
        let n = graph.node_at(i);
        proof {
            graph.lemma_key_at(i as int);
        }
        let ghost r0 = r@;
        let hit = match dir {
            Direction::Top => n.y == 0,
            Direction::Right => n.x == width - 1,
            Direction::Bottom => n.y == height - 1,
            Direction::Left => n.x == 0,
        };
        if hit {
            proof {
                // the node is new: every element so far is an earlier key
                assert forall|t: int| 0 <= t < r0.len() implies r0[t] != n by {
                    let j = choose|j: int| 0 <= j < i && graph.key_seq()[j] == r0[t];
                    assert(graph.key_seq()[j] != graph.key_seq()[i as int]);
                }
            }
            r.push(n);
        }
        i = i + 1;
        proof {
            assert forall|t: int| 0 <= t < r@.len() implies exists|j: int|
                0 <= j < i && graph.key_seq()[j] == #[trigger] r@[t] by {
                if t < r0.len() {
                    assert(r@[t] == r0[t]);
                    let j = choose|j: int| 0 <= j < i - 1 && graph.key_seq()[j] == r0[t];
                    assert(graph.key_seq()[j] == r@[t]);
                } else {
                    assert(r@[t] == n);
                    assert(graph.key_seq()[i - 1] == n);
                }
            }
            assert forall|j: int|
                0 <= j < i && on_edge(
                    dir,
                    #[trigger] graph.key_seq()[j],
                    width as int,
                    height as int,
                ) implies r@.contains(graph.key_seq()[j]) by {
                if j < i - 1 {
                    assert(r0.contains(graph.key_seq()[j]));
                    let t = choose|t: int| 0 <= t < r0.len() && r0[t] == graph.key_seq()[j];
                    assert(r@[t] == graph.key_seq()[j]);
                } else {
                    assert(graph.key_seq()[j] == n);
                    assert(r@[r@.len() - 1] == n);
                }
            }
        }
    }
    r
}

impl Side {
    /// Create a new side from the given graph: collect the boundary nodes
    /// of each of the four edges and build their canonical signatures.
    pub fn new(graph: &Graph, width: usize, height: usize) -> (r: Side)
        requires
            graph.wf(),
            width >= 1,
            height >= 1,
            forall|n: Node|
                #[trigger] graph.has_key(n) ==> n.x < width && n.y < height,
            forall|n: Node, m: Node|
                #[trigger] graph.has_key(n) && #[trigger] graph.has_key(m) ==> n.grid == m.grid,
        ensures
            r.signatures@.len() == 4,
            r@.len() == 4,
            forall|i: int| 0 <= i < 4 ==> wf_sig(#[trigger] r@[i]),
            r@[0].width == width,
            r@[1].width == height,
            r@[2].width == width,
            r@[3].width == height,
            width == height ==> wf_side(r@),
            forall|i: int, n: Node|
                0 <= i < 4 ==> ((#[trigger] r@[i].nodes.contains(n)) <==> (graph.has_key(n)
                    && on_edge(dir_of(i), n, width as int, height as int))),
            forall|i: int, k: int|
                0 <= i < 4 && 0 <= k < r@[i].nodes.len() ==> #[trigger] r@[i].positions[k]
                    == edge_pos(dir_of(i), r@[i].nodes[k], width as int, height as int),
    {
        let top_nodes = collect_edge_nodes(graph, Direction::Top, width, height);
        let right_nodes = collect_edge_nodes(graph, Direction::Right, width, height);
        let bottom_nodes = collect_edge_nodes(graph, Direction::Bottom, width, height);
        let left_nodes = collect_edge_nodes(graph, Direction::Left, width, height);
        let ghost tn = top_nodes@;
        let ghost rn = right_nodes@;
        let ghost bn = bottom_nodes@;
        let ghost ln = left_nodes@;
        let top = Signature::new(top_nodes, width, height, Direction::Top);
        let right = Signature::new(right_nodes, width, height, Direction::Right);
        let bottom = Signature::new(bottom_nodes, width, height, Direction::Bottom);
        let left = Signature::new(left_nodes, width, height, Direction::Left);
        let ghost tv = top@;
        let ghost rv = right@;
        let ghost bv = bottom@;
        let ghost lv = left@;
        let r = Side { signatures: vec![top, right, bottom, left] };
        proof {
            assert(r@.len() == 4);
            assert(r@[0] == tv);
            assert(r@[1] == rv);
            assert(r@[2] == bv);
            assert(r@[3] == lv);
            lemma_multiset_contains_same(tv.nodes, tn);
            lemma_multiset_contains_same(rv.nodes, rn);
            lemma_multiset_contains_same(bv.nodes, bn);
            lemma_multiset_contains_same(lv.nodes, ln);
        }
        r
    }
}

/// The direction at a given table index.
pub open spec fn dir_of(i: int) -> Direction {
    if i == 0 {
        Direction::Top
    } else if i == 1 {
        Direction::Right
    } else if i == 2 {
        Direction::Bottom
    } else {
        Direction::Left
    }
}

/// Two sequences with the same multiset contain the same elements.
proof fn lemma_multiset_contains_same(a: Seq<Node>, b: Seq<Node>)
    requires
        a.to_multiset() == b.to_multiset(),
    ensures
        forall|n: Node| a.contains(n) <==> b.contains(n),
{
    assert forall|n: Node| a.contains(n) <==> b.contains(n) by {
        vstd::seq_lib::to_multiset_contains(a, n);
        vstd::seq_lib::to_multiset_contains(b, n);
    }
}

impl Side {
    /// Get the neighbors of the side at the given index and in which
    /// directions they are connected.
    ///
    /// The cube net, with its six side indexes, is laid out as
    ///
    /// ```plain
    ///     0
    ///  2  1  3
    ///     4
    ///     5
    /// ```
    ///
    /// and each entry `(d, q, dq)` says that this side's edge `d` touches
    /// edge `dq` of side `q`.
    pub fn get_neighbors(side: usize) -> (r: Vec<(Direction, usize, Direction)>)
        ensures
            r@ == neighbor_table(side as int),
            r@.len() == 4,
            forall|k: int| 0 <= k < 4 ==> (#[trigger] r@[k]).1 < 6,
    {
        let r = match side {
            0 => vec![
                (Direction::Top, 5usize, Direction::Bottom),
                (Direction::Right, 3usize, Direction::Top),
                (Direction::Bottom, 1usize, Direction::Top),
                (Direction::Left, 2usize, Direction::Top),
            ],
            1 => vec![
                (Direction::Top, 0usize, Direction::Bottom),
                (Direction::Right, 3usize, Direction::Left),
                (Direction::Bottom, 4usize, Direction::Top),
                (Direction::Left, 2usize, Direction::Right),
            ],
            2 => vec![
                (Direction::Top, 0usize, Direction::Left),
                (Direction::Right, 1usize, Direction::Left),
                (Direction::Bottom, 4usize, Direction::Left),
                (Direction::Left, 5usize, Direction::Left),
            ],
            3 => vec![
                (Direction::Top, 0usize, Direction::Right),
                (Direction::Right, 5usize, Direction::Right),
                (Direction::Bottom, 4usize, Direction::Right),
                (Direction::Left, 1usize, Direction::Right),
            ],
            4 => vec![
                (Direction::Top, 1usize, Direction::Bottom),
                (Direction::Right, 3usize, Direction::Bottom),
                (Direction::Bottom, 5usize, Direction::Top),
                (Direction::Left, 2usize, Direction::Bottom),
            ],
            _ => vec![
                (Direction::Top, 4usize, Direction::Bottom),
                (Direction::Right, 3usize, Direction::Right),
                (Direction::Bottom, 0usize, Direction::Top),
                (Direction::Left, 2usize, Direction::Left),
            ],
        };
        proof {
            assert(r@ =~= neighbor_table(side as int));
        }
        r
    }
}

/// The fixed adjacency of the cube net: for each side index, which edge of
/// which neighboring side every one of its four edges must match.
pub open spec fn neighbor_table(side: int) -> Seq<(Direction, usize, Direction)> {
    if side == 0 {
        seq![
            (Direction::Top, 5usize, Direction::Bottom),
            (Direction::Right, 3usize, Direction::Top),
            (Direction::Bottom, 1usize, Direction::Top),
            (Direction::Left, 2usize, Direction::Top),
        ]
    } else if side == 1 {
        seq![
            (Direction::Top, 0usize, Direction::Bottom),
            (Direction::Right, 3usize, Direction::Left),
            (Direction::Bottom, 4usize, Direction::Top),
            (Direction::Left, 2usize, Direction::Right),
        ]
    } else if side == 2 {
        seq![
            (Direction::Top, 0usize, Direction::Left),
            (Direction::Right, 1usize, Direction::Left),
            (Direction::Bottom, 4usize, Direction::Left),
            (Direction::Left, 5usize, Direction::Left),
        ]
    } else if side == 3 {
        seq![
            (Direction::Top, 0usize, Direction::Right),
            (Direction::Right, 5usize, Direction::Right),
            (Direction::Bottom, 4usize, Direction::Right),
            (Direction::Left, 1usize, Direction::Right),
        ]
    } else if side == 4 {
        seq![
            (Direction::Top, 1usize, Direction::Bottom),
            (Direction::Right, 3usize, Direction::Bottom),
            (Direction::Bottom, 5usize, Direction::Top),
            (Direction::Left, 2usize, Direction::Bottom),
        ]
    } else {
        seq![
            (Direction::Top, 4usize, Direction::Bottom),
            (Direction::Right, 3usize, Direction::Right),
            (Direction::Bottom, 0usize, Direction::Top),
            (Direction::Left, 2usize, Direction::Left),
        ]
    }
}

} // verus!
