//! Union-find with union by size and path compression.
//!
//! The partition is modeled by a ghost representative table: two elements
//! are in the same set exactly when their representatives coincide.  A
//! ghost depth potential decreases strictly along parent links, which makes
//! the parent chains provably acyclic.

use vstd::prelude::*;

use crate::grid::Node;

verus! {

/// One element of the union-find forest.
#[derive(Clone, Copy, Debug)]
pub struct SetEntry {
    /// The graph node this element stands for
    pub node: Node,
    /// The element's parent index; a root points at itself
    pub parent: usize,
    /// The size of the element's tree, kept only at roots
    pub size: usize,
}

/// A union-find forest over a fixed set of elements.
pub struct DisjointSets {
    /// The elements, with parent links and sizes
    pub sets: Vec<SetEntry>,
    /// The representative of every element
    pub rep: Ghost<Seq<int>>,
    /// A potential that strictly decreases along parent links
    pub dep: Ghost<Seq<nat>>,
}

impl DisjointSets {
    /// The number of elements.
    pub open spec fn len(&self) -> nat {
        self.sets@.len()
    }

    /// The structural invariant: parents stay in range, representatives are
    /// roots, parent links preserve the representative, and the potential
    /// falls strictly along every parent link.
    pub open spec fn inv(&self) -> bool {
        let n = self.sets@.len() as int;
        &&& self.rep@.len() == n
        &&& self.dep@.len() == n
        &&& forall|i: int| 0 <= i < n ==> (#[trigger] self.sets@[i]).parent < n
        &&& forall|i: int| 0 <= i < n ==> 0 <= #[trigger] self.rep@[i] < n
        &&& forall|i: int|
            0 <= i < n ==> (#[trigger] self.sets@[self.rep@[i]]).parent == self.rep@[i]
        &&& forall|i: int|
            0 <= i < n ==> self.rep@[(#[trigger] self.sets@[i]).parent as int] == self.rep@[i]
        &&& forall|i: int|
            0 <= i < n && (#[trigger] self.sets@[i]).parent == i ==> self.rep@[i] == i
        &&& forall|i: int|
            0 <= i < n && (#[trigger] self.sets@[i]).parent != i ==> self.dep@[self.sets@[i].parent as int]
                < self.dep@[i]
    }

    /// Two elements belong to the same set.
    pub open spec fn same_set(&self, i: int, j: int) -> bool {
        self.rep@[i] == self.rep@[j]
    }

    /// The set of representatives in use.
    pub open spec fn rep_image(&self) -> Set<int> {
        Set::new(|v: int| exists|i: int| 0 <= i < self.len() && self.rep@[i] == v)
    }

    /// How many sets the partition currently holds.
    pub open spec fn num_classes(&self) -> nat {
        self.rep_image().len()
    }

    /// The representatives form a finite set of at most `len` values.
    pub proof fn lemma_rep_image_finite(&self)
        requires
            self.inv(),
        ensures
            self.rep_image().finite(),
            self.rep_image().len() <= self.len(),
    {
        vstd::set_lib::lemma_int_range(0, self.len() as int);
        assert(self.rep_image().subset_of(vstd::set_lib::set_int_range(0, self.len() as int)));
        vstd::set_lib::lemma_len_subset(
            self.rep_image(),
            vstd::set_lib::set_int_range(0, self.len() as int),
        );
    }

    /// The potential of a non-root's representative lies strictly below its
    /// own.
    pub proof fn lemma_rep_dep(&self, i: int)
        requires
            self.inv(),
            0 <= i < self.len(),
            self.rep@[i] != i,
        ensures
            self.dep@[self.rep@[i]] < self.dep@[i],
        decreases self.dep@[i],
    {
        let p = self.sets@[i].parent as int;
        assert(p != i);
        if p == self.rep@[i] {
        } else {
            assert(self.rep@[p] == self.rep@[i]);
            self.lemma_rep_dep(p);
        }
    }
}

/// The physical effect of a union: the smaller tree's root now points at
/// the larger tree's root, whose recorded size grew by the attached size
/// (saturating at the machine bound); every other element's size is
/// untouched.
pub open spec fn attached_under(pre: DisjointSets, post: DisjointSets, r1: int, r2: int) -> bool {
    &&& 0 <= r1 < pre.len()
    &&& 0 <= r2 < pre.len()
    &&& r1 != r2
    &&& pre.sets@[r1].size >= pre.sets@[r2].size
    &&& post.sets@[r2].parent as int == r1
    &&& post.sets@[r1].size == (if pre.sets@[r1].size + pre.sets@[r2].size > usize::MAX {
        usize::MAX
    } else {
        (pre.sets@[r1].size + pre.sets@[r2].size) as usize
    })
    &&& forall|i: int|
        0 <= i < pre.len() && i != r1 && i != r2 ==> (#[trigger] post.sets@[i]).size
            == pre.sets@[i].size
}

/// Find the representative of `x`, re-pointing every element on the walk
/// directly at the root.
pub fn find(x: usize, sets: &mut DisjointSets) -> (r: usize)
    requires
        old(sets).inv(),
        x < old(sets).len(),
    ensures
        final(sets).inv(),
        final(sets).len() == old(sets).len(),
        final(sets).rep@ == old(sets).rep@,
        final(sets).dep@ == old(sets).dep@,
        forall|i: int|
            0 <= i < old(sets).len() ==> (#[trigger] final(sets).sets@[i]).node == old(sets).sets@[i].node && final(sets).sets@[i].size == old(sets).sets@[i].size,
        r < final(sets).len(),
        r as int == old(sets).rep@[x as int],
        final(sets).sets@[x as int].parent as int == old(sets).rep@[x as int],
{
    let ghost n = sets.sets@.len() as int;
    // first pass: find the root
    let mut cur = x;
    while sets.sets[cur].parent != cur
        invariant
            sets.inv(),
            cur < sets.sets@.len(),
            sets.rep@[cur as int] == sets.rep@[x as int],
        decreases sets.dep@[cur as int],
    {
        cur = sets.sets[cur].parent;
    }
    let root = cur;
    proof {
        assert(sets.rep@[root as int] == root as int);
    }
    // second pass: re-point the walked chain at the root
    let mut c2 = x;
    let ghost sets0 = *sets;
    while sets.sets[c2].parent != c2
        invariant
            sets.inv(),
            c2 < sets.sets@.len(),
            sets.sets@.len() == sets0.sets@.len(),
            sets.rep@ == sets0.rep@,
            sets.dep@ == sets0.dep@,
            forall|i: int|
                0 <= i < sets0.sets@.len() ==> (#[trigger] sets.sets@[i]).node
                    == sets0.sets@[i].node && sets.sets@[i].size == sets0.sets@[i].size,
            sets.rep@[c2 as int] == sets.rep@[x as int],
            root as int == sets.rep@[x as int],
            root < sets.sets@.len(),
            x < sets.sets@.len(),
            c2 == x || sets.sets@[x as int].parent == root,
        decreases sets.dep@[c2 as int],
    {
        let next = sets.sets[c2].parent;
        proof {
            if c2 as int != sets.rep@[c2 as int] {
                sets.lemma_rep_dep(c2 as int);
            }
        }
        let entry = sets.sets[c2];
        let ghost before = *sets;
        sets.sets[c2] = SetEntry { node: entry.node, parent: root, size: entry.size };
        proof {
            if c2 != x {
                assert(sets.sets@[x as int] == before.sets@[x as int]);
            }
            let c2i = c2 as int;
            let len = sets.sets@.len() as int;
            assert(c2i != root as int);
            assert(before.sets@[root as int].parent == root);
            assert(sets.dep@[root as int] < sets.dep@[c2i]);
            assert forall|i: int|
                0 <= i < len implies (#[trigger] sets.sets@[sets.rep@[i]]).parent
                    == sets.rep@[i] by {
                if sets.rep@[i] == c2i {
                    assert(before.sets@[c2i].parent == c2i);
                    assert(false);
                } else {
                    assert(sets.sets@[sets.rep@[i]] == before.sets@[sets.rep@[i]]);
                }
            }
            assert forall|i: int|
                0 <= i < len implies sets.rep@[(#[trigger] sets.sets@[i]).parent as int]
                    == sets.rep@[i] by {
                if i == c2i {
                    assert(sets.sets@[i].parent == root);
                    assert(sets.rep@[root as int] == root as int);
                } else {
                    assert(sets.sets@[i] == before.sets@[i]);
                }
            }
            assert forall|i: int|
                0 <= i < len && (#[trigger] sets.sets@[i]).parent == i implies sets.rep@[i]
                    == i by {
                if i != c2i {
                    assert(sets.sets@[i] == before.sets@[i]);
                }
            }
            assert forall|i: int|
                0 <= i < len && (#[trigger] sets.sets@[i]).parent != i implies sets.dep@[sets.sets@[i].parent as int]
                    < sets.dep@[i] by {
                if i != c2i {
                    assert(sets.sets@[i] == before.sets@[i]);
                }
            }
        }
        c2 = next;
    }
    root
}

/// Join the sets of `x` and `y`, linking the smaller tree under the larger.
pub fn union(x: usize, y: usize, sets: &mut DisjointSets)
    requires
        old(sets).inv(),
        x < old(sets).len(),
        y < old(sets).len(),
    ensures
        final(sets).inv(),
        final(sets).len() == old(sets).len(),
        forall|i: int|
            0 <= i < old(sets).len() ==> (#[trigger] final(sets).sets@[i]).node == old(sets).sets@[i].node,
        forall|i: int, j: int|
            0 <= i < old(sets).len() && 0 <= j < old(sets).len() ==> (#[trigger] final(sets).same_set(i, j) <==> (old(sets).same_set(i, j) || (old(sets).same_set(i, x as int)
                && old(sets).same_set(j, y as int)) || (old(sets).same_set(i, y as int) && old(sets).same_set(j, x as int)))),
        old(sets).same_set(x as int, y as int) ==> final(sets).rep@ == old(sets).rep@,
        !old(sets).same_set(x as int, y as int) ==> final(sets).num_classes() + 1 == old(sets).num_classes(),
        !old(sets).same_set(x as int, y as int) ==> exists|r1: int, r2: int|
            ((r1 == old(sets).rep@[x as int] && r2 == old(sets).rep@[y as int]) || (r1 == old(sets).rep@[y as int] && r2 == old(sets).rep@[x as int])) && #[trigger] attached_under(
                *old(sets),
                *final(sets),
                r1,
                r2,
            ),
{
    let ghost n = sets.sets@.len() as int;
    let ghost repx = sets.rep@[x as int];
    let ghost repy = sets.rep@[y as int];
    let rx0 = find(x, sets);
    let ry0 = find(y, sets);
    if rx0 == ry0 {
        return ;
    }
    let mut rx = rx0;
    let mut ry = ry0;
    if sets.sets[rx].size < sets.sets[ry].size {
        let t = rx;
        rx = ry;
        ry = t;
    }
    let ghost pre = *sets;
    let size_rx = sets.sets[rx].size;
    let size_ry = sets.sets[ry].size;
    let new_size = if size_ry > usize::MAX - size_rx {
        usize::MAX
    } else {
        size_rx + size_ry
    };
    let e_ry = sets.sets[ry];
    sets.sets[ry] = SetEntry { node: e_ry.node, parent: rx, size: e_ry.size };
    let e_rx = sets.sets[rx];
    sets.sets[rx] = SetEntry { node: e_rx.node, parent: e_rx.parent, size: new_size };
    proof {
        let rxi = rx as int;
        let ryi = ry as int;
        sets.rep = Ghost(Seq::new(n as nat, |i: int| if pre.rep@[i] == ryi {
            rxi
        } else {
            pre.rep@[i]
        }));
        sets.dep = Ghost(
            Seq::new(n as nat, |i: int| if pre.rep@[i] == ryi {
                (pre.dep@[i] + pre.dep@[rxi] + 1) as nat
            } else {
                pre.dep@[i]
            }),
        );
        assert(pre.rep@[rxi] == rxi);
        assert(pre.rep@[ryi] == ryi);
        assert forall|i: int| 0 <= i < n implies (#[trigger] sets.sets@[i]).parent < n by {}
        assert forall|i: int| 0 <= i < n implies 0 <= #[trigger] sets.rep@[i] < n by {}
        assert forall|i: int|
            0 <= i < n implies (#[trigger] sets.sets@[sets.rep@[i]]).parent == sets.rep@[i] by {
            if pre.rep@[i] == ryi {
                assert(sets.rep@[i] == rxi);
                assert(sets.sets@[rxi].parent == pre.sets@[rxi].parent);
            } else {
                assert(sets.rep@[i] == pre.rep@[i]);
                if pre.rep@[i] == rxi {
                } else {
                    assert(pre.rep@[i] != ryi);
                    assert(sets.sets@[pre.rep@[i]] == pre.sets@[pre.rep@[i]]);
                }
            }
        }
        assert forall|i: int|
            0 <= i < n implies sets.rep@[(#[trigger] sets.sets@[i]).parent as int]
                == sets.rep@[i] by {
            if i == ryi {
                assert(sets.sets@[ryi].parent == rx);
                assert(pre.rep@[rxi] == rxi);
                assert(rxi != ryi);
                assert(sets.rep@[rxi] == rxi);
                assert(sets.rep@[ryi] == rxi);
            } else {
                assert(sets.sets@[i].parent == pre.sets@[i].parent);
                let p = pre.sets@[i].parent as int;
                assert(pre.rep@[p] == pre.rep@[i]);
            }
        }
        assert forall|i: int|
            0 <= i < n && (#[trigger] sets.sets@[i]).parent == i implies sets.rep@[i] == i by {
            if i == ryi {
                assert(sets.sets@[ryi].parent == rx);
            } else {
                assert(sets.sets@[i].parent == pre.sets@[i].parent);
                assert(pre.rep@[i] == i);
                assert(pre.rep@[i] != ryi);
            }
        }
        assert forall|i: int|
            0 <= i < n && (#[trigger] sets.sets@[i]).parent != i implies sets.dep@[sets.sets@[i].parent as int]
                < sets.dep@[i] by {
            if i == ryi {
                assert(sets.dep@[ryi] == pre.dep@[ryi] + pre.dep@[rxi] + 1);
                assert(pre.rep@[rxi] != ryi);
                assert(sets.dep@[rxi] == pre.dep@[rxi]);
            } else {
                let p = pre.sets@[i].parent as int;
                assert(sets.sets@[i].parent == pre.sets@[i].parent);
                assert(pre.dep@[p] < pre.dep@[i]);
                assert(pre.rep@[p] == pre.rep@[i]);
                if pre.rep@[i] == ryi {
                    assert(sets.dep@[i] == pre.dep@[i] + pre.dep@[rxi] + 1);
                    assert(sets.dep@[p] == pre.dep@[p] + pre.dep@[rxi] + 1);
                } else {
                    assert(sets.dep@[i] == pre.dep@[i]);
                    assert(sets.dep@[p] == pre.dep@[p]);
                }
            }
        }
        assert forall|i: int, j: int|
            0 <= i < n && 0 <= j < n implies (#[trigger] sets.same_set(i, j) <==> (pre.same_set(
            i,
            j,
        ) || (pre.same_set(i, rxi) && pre.same_set(j, ryi)) || (pre.same_set(i, ryi)
            && pre.same_set(j, rxi)))) by {}
        // the merge retires exactly one representative
        assert(sets.rep_image() =~= pre.rep_image().remove(ryi)) by {
            assert forall|v: int| #[trigger] sets.rep_image().contains(v) implies pre.rep_image().contains(v)
                && v != ryi by {
                let i = choose|i: int| 0 <= i < n && sets.rep@[i] == v;
                if pre.rep@[i] == ryi {
                    assert(pre.rep@[rxi] == v);
                } else {
                    assert(pre.rep@[i] == v);
                }
            }
            assert forall|v: int|
                pre.rep_image().contains(v) && v != ryi implies #[trigger] sets.rep_image().contains(
                v,
            ) by {
                let i = choose|i: int| 0 <= i < n && pre.rep@[i] == v;
                assert(sets.rep@[i] == v);
            }
        }
        assert(pre.rep_image().contains(ryi)) by {
            assert(pre.rep@[ryi] == ryi);
        }
        pre.lemma_rep_image_finite();
        vstd::set::axiom_set_remove_len(pre.rep_image(), ryi);
        assert(sets.num_classes() + 1 == pre.num_classes());
        assert(pre.rep_image() =~= old(sets).rep_image());
        // the physical by-size attachment, stated against the entry sizes
        assert forall|i: int|
            0 <= i < n implies (#[trigger] pre.sets@[i]).size == old(sets).sets@[i].size by {}
        assert(pre.sets@[rxi].size >= pre.sets@[ryi].size);
        assert(sets.sets@[ryi].parent as int == rxi);
        assert(sets.sets@[rxi].size == (if old(sets).sets@[rxi].size + old(sets).sets@[ryi].size
            > usize::MAX {
            usize::MAX
        } else {
            (old(sets).sets@[rxi].size + old(sets).sets@[ryi].size) as usize
        }));
        assert forall|i: int|
            0 <= i < n && i != rxi && i != ryi implies (#[trigger] sets.sets@[i]).size == old(
                sets,
            ).sets@[i].size by {}
        assert((rxi == old(sets).rep@[x as int] && ryi == old(sets).rep@[y as int]) || (rxi
            == old(sets).rep@[y as int] && ryi == old(sets).rep@[x as int]));
        assert(attached_under(*old(sets), *sets, rxi, ryi));
    }
}

} // verus!
