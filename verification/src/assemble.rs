//! Searching for valid cube assemblies and extracting their connections.
//!
//! The assembler explores, over a worklist of partial assignments, every way
//! to place the six input faces onto the six fixed cube positions, rotated
//! so that the signatures of structurally adjacent edges match.  Every
//! returned assembly uses each input face at most once, which the
//! provenance argument in [`valid_assembly`] records.

use vstd::prelude::*;

use crate::cube::{
    wf_sig,
    dir_index, matched_pairs, neighbor_table, rotate_side, wf_side, Direction, Side, SigView,
    Signature,
};
use crate::grid::Node;

verus! {

/// Whether bit `i` of the face mask is set.
pub open spec fn mask_bit(mask: u8, i: int) -> bool {
    if 0 <= i < 8 {
        (mask >> (i as u8)) & 1 == 1
    } else {
        false
    }
}

/// One side's table equals another's cyclically shifted right by `k`.
pub open spec fn rotation_eq(v: Seq<SigView>, base: Seq<SigView>, k: int) -> bool {
    &&& v.len() == 4
    &&& v[0] == base[(0 - k + 4) % 4]
    &&& v[1] == base[(1 - k + 4) % 4]
    &&& v[2] == base[(2 - k + 4) % 4]
    &&& v[3] == base[(3 - k + 4) % 4]
}

/// One side's table is a rotation of another's.
pub open spec fn is_rotation(v: Seq<SigView>, base: Seq<SigView>) -> bool {
    exists|k: int| 0 <= k < 4 && #[trigger] rotation_eq(v, base, k)
}

/// A table built by [`rotate_side`] is a rotation in the ground sense.
pub proof fn lemma_rotate_is_rotation(v: Seq<SigView>, base: Seq<SigView>, k: int)
    requires
        0 <= k < 4,
        v == rotate_side(base, k),
    ensures
        rotation_eq(v, base, k),
        is_rotation(v, base),
{
    assert(v[0] == base[(0 - k + 4) % 4]);
    assert(v[1] == base[(1 - k + 4) % 4]);
    assert(v[2] == base[(2 - k + 4) % 4]);
    assert(v[3] == base[(3 - k + 4) % 4]);
    assert(rotation_eq(v, base, k));
}

/// Position `q` of the assembly was placed against a matching edge: some
/// adjacency-table entry pointing at `q` pairs at least one boundary node
/// between the two signatures it relates.
pub open spec fn placement_matched(cfg: Seq<Seq<SigView>>, q: int) -> bool {
    exists|p: int, e: int|
        0 <= p < 6 && 0 <= e < 4 && (#[trigger] neighbor_table(p)[e]).1 == q && matched_pairs(
            cfg[p][dir_index(neighbor_table(p)[e].0)],
            cfg[q][dir_index(neighbor_table(p)[e].2)],
        ).len() >= 1
}

/// A full assembly drawn from the input faces: cube position 1 holds input
/// face 0 unrotated, every other position holds a rotation of a distinct
/// input face and was placed against a matching edge of a neighbor.  The
/// search checks the one edge used to place each face; the remaining
/// structurally adjacent edges are paired afterwards by the connection
/// resolver wherever they also match.
pub open spec fn valid_assembly(cfg: Seq<Seq<SigView>>, sides: Seq<Side>) -> bool {
    &&& cfg.len() == 6
    &&& cfg[1] == sides[0]@
    &&& forall|q: int| 0 <= q < 6 && q != 1 ==> placement_matched(cfg, q)
    &&& exists|prov: Seq<int>|
        prov.len() == 6 && (forall|p: int|
            0 <= p < 6 ==> 0 <= #[trigger] prov[p] < sides.len() && is_rotation(
                cfg[p],
                sides[prov[p]]@,
            )) && (forall|p: int, q: int| 0 <= p < q < 6 ==> prov[p] != prov[q])
}

/// One state of the assembly search: a partial assignment of sides to cube
/// positions and the mask of input faces already used.
struct AsmState {
    config: Vec<Option<Side>>,
    used: u8,
}

/// The invariant of every state on the worklist: each assigned position
/// holds a rotation of a distinct input face whose mask bit is set.
spec fn state_ok(config: Seq<Option<Side>>, used: u8, sides: Seq<Side>) -> bool {
    &&& config.len() == 6
    &&& config[1] is Some
    &&& config[1]->Some_0@ == sides[0]@
    &&& forall|q: int|
        0 <= q < 6 && q != 1 && (#[trigger] config[q]) is Some ==> state_placed_matched(config, q)
    &&& exists|prov: Seq<int>| #[trigger] state_prov_ok(config, used, sides, prov)
}

/// Position `q` of a partial assignment was placed against a matching edge
/// of an already assigned position.
spec fn state_placed_matched(config: Seq<Option<Side>>, q: int) -> bool {
    exists|p: int, e: int|
        0 <= p < 6 && 0 <= e < 4 && (#[trigger] config[p]) is Some && (
        #[trigger] neighbor_table(p)[e]).1 == q && matched_pairs(
            config[p]->Some_0@[dir_index(neighbor_table(p)[e].0)],
            config[q]->Some_0@[dir_index(neighbor_table(p)[e].2)],
        ).len() >= 1
}

/// One provenance witness for a search state.
spec fn state_prov_ok(config: Seq<Option<Side>>, used: u8, sides: Seq<Side>, prov: Seq<int>) -> bool {
    &&& prov.len() == 6
    &&& forall|p: int|
        0 <= p < 6 && (#[trigger] config[p]) is Some ==> 0 <= prov[p] < sides.len() && mask_bit(
            used,
            prov[p],
        ) && is_rotation(config[p]->Some_0@, sides[prov[p]]@) && config[p]->Some_0.signatures@.len()
            == 4 && wf_side(config[p]->Some_0@)
    &&& forall|p: int, q: int|
        0 <= p < 6 && 0 <= q < 6 && p != q && (#[trigger] config[p]) is Some && (
        #[trigger] config[q]) is Some ==> prov[p] != prov[q]
}

/// Rotating a well-formed side keeps it well formed.
proof fn lemma_rotation_wf(v: Seq<SigView>, base: Seq<SigView>)
    requires
        wf_side(base),
        is_rotation(v, base),
    ensures
        wf_side(v),
        v[0].width == base[0].width,
{
    let k = choose|k: int| 0 <= k < 4 && #[trigger] rotation_eq(v, base, k);
    assert(wf_sig(v[0]) && v[0].width == base[0].width);
    assert(wf_sig(v[1]) && v[1].width == base[0].width);
    assert(wf_sig(v[2]) && v[2].width == base[0].width);
    assert(wf_sig(v[3]) && v[3].width == base[0].width);
    assert forall|i: int| 0 <= i < 4 implies wf_sig(#[trigger] v[i]) by {}
    assert forall|i: int| 0 <= i < 4 implies (#[trigger] v[i]).width == v[0].width by {}
}

/// Compare two signatures for deep equality.
fn sig_eq(a: &Signature, b: &Signature) -> (r: bool)
    ensures
        r == (a@ == b@),
{
    if a.width != b.width {
        return false;
    }
    if a.signature.len() != b.signature.len() {
        proof {
            assert(a@.positions.len() == a.signature@.len());
            assert(b@.positions.len() == b.signature@.len());
        }
        return false;
    }
    if a.nodes.len() != b.nodes.len() {
        return false;
    }
    let n = a.signature.len();
    let mut i: usize = 0;
    while i < n
        invariant
            n == a.signature@.len(),
            n == b.signature@.len(),
            i <= n,
            forall|t: int| 0 <= t < i ==> a.signature@[t] == b.signature@[t],
        decreases n - i,
    {
        if a.signature[i] != b.signature[i] {
            proof {
                assert(a@.positions[i as int] == a.signature@[i as int] as int);
                assert(b@.positions[i as int] == b.signature@[i as int] as int);
            }
            return false;
        }
        i = i + 1;
    }
    let m = a.nodes.len();
    let mut j: usize = 0;
    while j < m
        invariant
            m == a.nodes@.len(),
            m == b.nodes@.len(),
            j <= m,
            forall|t: int| 0 <= t < j ==> a.nodes@[t] == b.nodes@[t],
        decreases m - j,
    {
        if a.nodes[j] != b.nodes[j] {
            return false;
        }
        j = j + 1;
    }
    proof {
        assert(a.signature@ =~= b.signature@);
        assert(a.nodes@ =~= b.nodes@);
        assert(a@.positions =~= b@.positions);
    }
    true
}

/// Compare two sides for deep equality.
fn side_eq(a: &Side, b: &Side) -> (r: bool)
    ensures
        r == (a@ == b@),
{
    if a.signatures.len() != b.signatures.len() {
        proof {
            assert(a@.len() == a.signatures@.len());
            assert(b@.len() == b.signatures@.len());
        }
        return false;
    }
    let n = a.signatures.len();
    let mut i: usize = 0;
    while i < n
        invariant
            n == a.signatures@.len(),
            n == b.signatures@.len(),
            i <= n,
            forall|t: int| 0 <= t < i ==> (#[trigger] a.signatures@[t])@ == b.signatures@[t]@,
        decreases n - i,
    {
        if !sig_eq(&a.signatures[i], &b.signatures[i]) {
            proof {
                assert(a@[i as int] == a.signatures@[i as int]@);
                assert(b@[i as int] == b.signatures@[i as int]@);
            }
            return false;
        }
        i = i + 1;
    }
    proof {
        assert(a@ =~= b@);
    }
    true
}

/// Compare two search states for deep equality of their views.
fn state_eq(a: &AsmState, b: &AsmState) -> (r: bool)
{
    if a.used != b.used {
        return false;
    }
    if a.config.len() != b.config.len() {
        return false;
    }
    let n = a.config.len();
    let mut i: usize = 0;
    while i < n
        invariant
            n == a.config@.len(),
            n == b.config@.len(),
            i <= n,
        decreases n - i,
    {
        let same = match (&a.config[i], &b.config[i]) {
            (Option::None, Option::None) => true,
            (Option::Some(x), Option::Some(y)) => side_eq(x, y),
            _ => false,
        };
        if !same {
            return false;
        }
        i = i + 1;
    }
    true
}

/// A deep copy of a partial configuration.
fn duplicate_config(c: &Vec<Option<Side>>) -> (r: Vec<Option<Side>>)
    ensures
        r@.len() == c@.len(),
        forall|t: int|
            0 <= t < c@.len() ==> ((#[trigger] r@[t]) is Some == c@[t] is Some) && (c@[t] is Some
                ==> r@[t]->Some_0@ == c@[t]->Some_0@ && r@[t]->Some_0.signatures@.len()
                == c@[t]->Some_0.signatures@.len()),
{
    let mut r: Vec<Option<Side>> = Vec::new();
    let mut i: usize = 0;
    while i < c.len()
        invariant
            i <= c@.len(),
            r@.len() == i,
            forall|t: int|
                0 <= t < i ==> ((#[trigger] r@[t]) is Some == c@[t] is Some) && (c@[t] is Some
                    ==> r@[t]->Some_0@ == c@[t]->Some_0@ && r@[t]->Some_0.signatures@.len()
                    == c@[t]->Some_0.signatures@.len()),
        decreases c@.len() - i,
    {
        let e: Option<Side> = match &c[i] {
            Option::None => Option::None,
            Option::Some(s) => {
                let mut sigs: Vec<Signature> = Vec::new();
                let mut j: usize = 0;
                while j < s.signatures.len()
                    invariant
                        j <= s.signatures@.len(),
                        sigs@.len() == j,
                        forall|t: int|
                            0 <= t < j ==> (#[trigger] sigs@[t])@ == s.signatures@[t]@,
                    decreases s.signatures@.len() - j,
                {
                    sigs.push(s.signatures[j].duplicate());
                    j = j + 1;
                }
                let d = Side { signatures: sigs };
                proof {
                    assert(d@ =~= (*s)@);
                }
                Option::Some(d)
            },
        };
        r.push(e);
        i = i + 1;
    }
    r
}

/// Setting a fresh bit keeps the other bits and sets the new one.
proof fn lemma_mask_set(mask: u8, oi: u8)
    requires
        oi < 8,
    ensures
        forall|j: int| #[trigger] mask_bit(mask | (1u8 << oi), j) == (mask_bit(mask, j) || j == oi),
        (mask & (1u8 << oi) == 0) ==> !mask_bit(mask, oi as int),
{
    assert forall|j: int| #[trigger] mask_bit(mask | (1u8 << oi), j) == (mask_bit(mask, j) || j
        == oi) by {
        if 0 <= j < 8 {
            let ju = j as u8;
            assert(((mask | (1u8 << oi)) >> ju) & 1 == if ju == oi {
                1u8
            } else {
                (mask >> ju) & 1
            }) by (bit_vector)
                requires
                    oi < 8,
                    ju < 8,
            ;
        }
    }
    assert((mask & (1u8 << oi) == 0) ==> (mask >> oi) & 1 == 0) by (bit_vector)
        requires
            oi < 8,
    ;
}

/// Find all possible configurations in which the input faces can be put on
/// the sides of the cube, rotated so that adjacent edges' signatures match.
///
/// The search keeps a set of already seen states so that no partial
/// assignment is explored twice, and it gives up after a fixed number of
/// worklist steps, far beyond the number of distinct states six faces with
/// four rotations can produce.  The contract promises soundness of every
/// returned assembly; that every valid folding is found is not stated, and
/// would not hold if the step bound were ever reached.
#[verifier::rlimit(100)]
pub fn get_cube_configurations(sides: &Vec<Side>) -> (r: Vec<Vec<Side>>)
    requires
        sides@.len() == 6,
        forall|i: int| 0 <= i < 6 ==> wf_side((#[trigger] sides@[i])@),
        forall|i: int| 0 <= i < 6 ==> (#[trigger] sides@[i]).signatures@.len() == 4,
        forall|i: int, j: int|
            0 <= i < 6 && 0 <= j < 6 ==> (#[trigger] sides@[i])@[0].width == (
            #[trigger] sides@[j])@[0].width,
    ensures
        forall|t: int| 0 <= t < r@.len() ==> valid_assembly(side_views_of(#[trigger] r@[t]), sides@),
        forall|t: int|
            0 <= t < r@.len() ==> (#[trigger] r@[t])@.len() == 6 && (forall|p: int|
                0 <= p < 6 ==> wf_side((#[trigger] r@[t]@[p])@) && r@[t]@[p].signatures@.len() == 4
                    && r@[t]@[p]@[0].width == sides@[0]@[0].width),
{
    let mut queue: Vec<AsmState> = Vec::new();
    let mut seen: Vec<AsmState> = Vec::new();
    let mut valid: Vec<Vec<Side>> = Vec::new();
    let start = make_start_state(sides);
    queue.push(start);

    let mut fuel: usize = 10000000;
    while fuel > 0 && queue.len() > 0
        invariant
            sides@.len() == 6,
            forall|i: int| 0 <= i < 6 ==> wf_side((#[trigger] sides@[i])@),
            forall|i: int| 0 <= i < 6 ==> (#[trigger] sides@[i]).signatures@.len() == 4,
            forall|i: int, j: int|
                0 <= i < 6 && 0 <= j < 6 ==> (#[trigger] sides@[i])@[0].width == (
                #[trigger] sides@[j])@[0].width,
            forall|t: int|
                0 <= t < queue@.len() ==> state_ok(
                    (#[trigger] queue@[t]).config@,
                    queue@[t].used,
                    sides@,
                ),
            forall|t: int|
                0 <= t < valid@.len() ==> valid_assembly(
                    side_views_of(#[trigger] valid@[t]),
                    sides@,
                ),
            forall|t: int|
                0 <= t < valid@.len() ==> (#[trigger] valid@[t])@.len() == 6 && (forall|p: int|
                    0 <= p < 6 ==> wf_side((#[trigger] valid@[t]@[p])@)
                        && valid@[t]@[p].signatures@.len() == 4 && valid@[t]@[p]@[0].width
                        == sides@[0]@[0].width),
        decreases fuel,
    {
        fuel = fuel - 1;
        let ghost queue0 = queue@;
        let state = queue.pop().unwrap();
        let ghost st_config = state.config@;
        let ghost st_used = state.used;
        proof {
            assert(queue0[queue0.len() - 1] == state);
            assert(state_ok(st_config, st_used, sides@));
        }

        // a fully assigned configuration is a valid assembly
        let mut all_assigned = true;
        let mut ci: usize = 0;
        while ci < 6
            invariant
                st_config == state.config@,
                st_config.len() == 6,
                ci <= 6,
                all_assigned == (forall|p: int| 0 <= p < ci ==> (#[trigger] st_config[p]) is Some),
            decreases 6 - ci,
        {
            if state.config[ci].is_none() {
                all_assigned = false;
            }
            ci = ci + 1;
        }
        if all_assigned {
            let full = complete_assembly(&state, sides);
            valid.push(full);
            continue;
        }

        // try to extend the partial assignment at every assigned position
        let mut pi: usize = 0;
        while pi < 6
            invariant
                sides@.len() == 6,
                forall|i: int| 0 <= i < 6 ==> wf_side((#[trigger] sides@[i])@),
                forall|i: int| 0 <= i < 6 ==> (#[trigger] sides@[i]).signatures@.len() == 4,
                forall|i: int, j: int|
                    0 <= i < 6 && 0 <= j < 6 ==> (#[trigger] sides@[i])@[0].width == (
                    #[trigger] sides@[j])@[0].width,
                st_config == state.config@,
                state_ok(st_config, st_used, sides@),
                st_used == state.used,
                pi <= 6,
                forall|t: int|
                    0 <= t < queue@.len() ==> state_ok(
                        (#[trigger] queue@[t]).config@,
                        queue@[t].used,
                        sides@,
                    ),
            decreases 6 - pi,
        {
            extend_at(sides, &state, pi, &mut queue, &mut seen);
            pi = pi + 1;
        }
    }
    valid
}

/// Try to place every unused input face, in every orientation, onto every
/// free neighbor of the assigned cube position `pi`, and push each state
/// whose trial edge matches.
fn extend_at(
    sides: &Vec<Side>,
    state: &AsmState,
    pi: usize,
    queue: &mut Vec<AsmState>,
    seen: &mut Vec<AsmState>,
)
    requires
        sides@.len() == 6,
        forall|i: int| 0 <= i < 6 ==> wf_side((#[trigger] sides@[i])@),
        forall|i: int| 0 <= i < 6 ==> (#[trigger] sides@[i]).signatures@.len() == 4,
        forall|i: int, j: int|
            0 <= i < 6 && 0 <= j < 6 ==> (#[trigger] sides@[i])@[0].width == (
            #[trigger] sides@[j])@[0].width,
        state_ok(state.config@, state.used, sides@),
        pi < 6,
        forall|t: int|
            0 <= t < old(queue)@.len() ==> state_ok(
                (#[trigger] old(queue)@[t]).config@,
                old(queue)@[t].used,
                sides@,
            ),
    ensures
        forall|t: int|
            0 <= t < final(queue)@.len() ==> state_ok(
                (#[trigger] final(queue)@[t]).config@,
                final(queue)@[t].used,
                sides@,
            ),
{
    let ghost st_config = state.config@;
    let ghost st_used = state.used;
    let assigned = state.config[pi].is_some();
    if assigned {
        let neighbors = Side::get_neighbors(pi);
        let mut ni: usize = 0;
        while ni < 4
            invariant
                sides@.len() == 6,
                forall|i: int| 0 <= i < 6 ==> wf_side((#[trigger] sides@[i])@),
                forall|i: int| 0 <= i < 6 ==> (#[trigger] sides@[i]).signatures@.len() == 4,
                forall|i: int, j: int|
                    0 <= i < 6 && 0 <= j < 6 ==> (#[trigger] sides@[i])@[0].width == (
                    #[trigger] sides@[j])@[0].width,
                st_config == state.config@,
                state_ok(st_config, st_used, sides@),
                st_used == state.used,
                pi < 6,
                st_config[pi as int] is Some,
                neighbors@ == neighbor_table(pi as int),
                neighbors@.len() == 4,
                forall|k: int| 0 <= k < 4 ==> (#[trigger] neighbors@[k]).1 < 6,
                ni <= 4,
                forall|t: int|
                    0 <= t < queue@.len() ==> state_ok(
                        (#[trigger] queue@[t]).config@,
                        queue@[t].used,
                        sides@,
                    ),
            decreases 4 - ni,
        {
            let (from_dir, to_side, to_dir) = neighbors[ni];
            let free = state.config[to_side].is_none();
            if free {
                proof {
                    assert(neighbor_table(pi as int)[ni as int] == ((from_dir, to_side, to_dir)));
                }
                try_faces(sides, state, pi, from_dir, to_side, to_dir, queue, seen);
            }
            ni = ni + 1;
        }
    }
}

/// The views of the sides of one configuration vector.
pub open spec fn side_views_of(v: Vec<Side>) -> Seq<Seq<SigView>> {
    v@.map_values(|x: Side| x@)
}

/// Try every unused input face and every base orientation against the
/// signature of one trial edge, pushing a new state for each match.
#[verifier::rlimit(100)]
fn try_faces(
    sides: &Vec<Side>,
    state: &AsmState,
    pi: usize,
    from_dir: Direction,
    to_side: usize,
    to_dir: Direction,
    queue: &mut Vec<AsmState>,
    seen: &mut Vec<AsmState>,
)
    requires
        sides@.len() == 6,
        forall|i: int| 0 <= i < 6 ==> wf_side((#[trigger] sides@[i])@),
        forall|i: int| 0 <= i < 6 ==> (#[trigger] sides@[i]).signatures@.len() == 4,
        forall|i: int, j: int|
            0 <= i < 6 && 0 <= j < 6 ==> (#[trigger] sides@[i])@[0].width == (
            #[trigger] sides@[j])@[0].width,
        state_ok(state.config@, state.used, sides@),
        pi < 6,
        state.config@[pi as int] is Some,
        to_side < 6,
        state.config@[to_side as int] is None,
        exists|e: int|
            0 <= e < 4 && #[trigger] neighbor_table(pi as int)[e] == ((from_dir, to_side, to_dir)),
        forall|t: int|
            0 <= t < old(queue)@.len() ==> state_ok(
                (#[trigger] old(queue)@[t]).config@,
                old(queue)@[t].used,
                sides@,
            ),
    ensures
        forall|t: int|
            0 <= t < final(queue)@.len() ==> state_ok(
                (#[trigger] final(queue)@[t]).config@,
                final(queue)@[t].used,
                sides@,
            ),
{
    let ghost st_config = state.config@;
    let ghost st_used = state.used;
    let mut oi: usize = 0;
    while oi < 6
        invariant
            sides@.len() == 6,
            forall|i: int| 0 <= i < 6 ==> wf_side((#[trigger] sides@[i])@),
            forall|i: int| 0 <= i < 6 ==> (#[trigger] sides@[i]).signatures@.len() == 4,
            forall|i: int, j: int|
                0 <= i < 6 && 0 <= j < 6 ==> (#[trigger] sides@[i])@[0].width == (
                #[trigger] sides@[j])@[0].width,
            st_config == state.config@,
            state_ok(st_config, st_used, sides@),
            st_used == state.used,
            pi < 6,
            st_config[pi as int] is Some,
            to_side < 6,
            st_config[to_side as int] is None,
            exists|e: int|
                0 <= e < 4 && #[trigger] neighbor_table(pi as int)[e] == ((
                from_dir,
                to_side,
                to_dir,
                )),
            oi <= 6,
            forall|t: int|
                0 <= t < queue@.len() ==> state_ok(
                    (#[trigger] queue@[t]).config@,
                    queue@[t].used,
                    sides@,
                ),
        decreases 6 - oi,
    {
        let unused = state.used & (1u8 << (oi as u8)) == 0;
        if unused {
            let dirs = [Direction::Top, Direction::Right, Direction::Bottom, Direction::Left];
            let mut di: usize = 0;
            while di < 4
                invariant
                    sides@.len() == 6,
                    forall|i: int| 0 <= i < 6 ==> wf_side((#[trigger] sides@[i])@),
                    forall|i: int| 0 <= i < 6 ==> (#[trigger] sides@[i]).signatures@.len() == 4,
                    forall|i: int, j: int|
                        0 <= i < 6 && 0 <= j < 6 ==> (#[trigger] sides@[i])@[0].width == (
                        #[trigger] sides@[j])@[0].width,
                    st_config == state.config@,
                    state_ok(st_config, st_used, sides@),
                    st_used == state.used,
                    pi < 6,
                    st_config[pi as int] is Some,
                    to_side < 6,
                    st_config[to_side as int] is None,
                    exists|e: int|
                        0 <= e < 4 && #[trigger] neighbor_table(pi as int)[e] == ((
                        from_dir,
                        to_side,
                        to_dir,
                        )),
                    oi < 6,
                    state.used & (1u8 << (oi as u8)) == 0,
                    di <= 4,
                    forall|t: int|
                        0 <= t < queue@.len() ==> state_ok(
                            (#[trigger] queue@[t]).config@,
                            queue@[t].used,
                            sides@,
                        ),
                decreases 4 - di,
            {
                let od = dirs[di];
                let matched = {
                    let s = match &state.config[pi] {
                        Option::Some(s) => s,
                        Option::None => {
                            proof {
                                assert(false);
                            }
                            &sides[0]
                        },
                    };
                    proof {
                        let prov = choose|prov: Seq<int>| #[trigger] state_prov_ok(
                            st_config,
                            st_used,
                            sides@,
                            prov,
                        );
                        lemma_rotation_wf(
                            st_config[pi as int]->Some_0@,
                            sides@[prov[pi as int]]@,
                        );
                    }
                    let ss = s.get_signature(from_dir);
                    let os = sides[oi].get_signature(od);
                    let mr = ss.get_matches(os);
                    proof {
                        if mr is Some {
                            assert(matched_pairs(
                                st_config[pi as int]->Some_0@[dir_index(from_dir)],
                                sides@[oi as int]@[dir_index(od)],
                            ).len() >= 1);
                        }
                    }
                    mr.is_some()
                };
                if matched {
                    push_matched_state(sides, state, pi, from_dir, to_side, to_dir, od, oi, queue, seen);
                }
                di = di + 1;
            }
        }
        oi = oi + 1;
    }
}

/// Turn a fully assigned search state into one returned assembly.
fn complete_assembly(state: &AsmState, sides: &Vec<Side>) -> (full: Vec<Side>)
    requires
        sides@.len() == 6,
        forall|i: int| 0 <= i < 6 ==> wf_side((#[trigger] sides@[i])@),
        forall|i: int, j: int|
            0 <= i < 6 && 0 <= j < 6 ==> (#[trigger] sides@[i])@[0].width == (
            #[trigger] sides@[j])@[0].width,
        state_ok(state.config@, state.used, sides@),
        forall|p: int| 0 <= p < 6 ==> (#[trigger] state.config@[p]) is Some,
    ensures
        valid_assembly(side_views_of(full), sides@),
        full@.len() == 6,
        forall|p: int|
            0 <= p < 6 ==> wf_side((#[trigger] full@[p])@) && full@[p].signatures@.len() == 4
                && full@[p]@[0].width == sides@[0]@[0].width,
{
    let ghost st_config = state.config@;
    let ghost st_used = state.used;
    proof {
        assert forall|p: int|
            0 <= p < 6 && (#[trigger] st_config[p]) is Some implies
            st_config[p]->Some_0.signatures@.len() == 4 by {
            let prov = choose|prov: Seq<int>| #[trigger] state_prov_ok(
                st_config,
                st_used,
                sides@,
                prov,
            );
        }
    }
    let mut full: Vec<Side> = Vec::new();
    let mut fi: usize = 0;
    while fi < 6
        invariant
            st_config == state.config@,
            st_config.len() == 6,
            forall|p: int| 0 <= p < 6 ==> (#[trigger] st_config[p]) is Some,
            forall|p: int|
                0 <= p < 6 ==> (#[trigger] st_config[p])->Some_0.signatures@.len() == 4,
            fi <= 6,
            full@.len() == fi,
            forall|p: int|
                0 <= p < fi ==> (#[trigger] full@[p])@ == st_config[p]->Some_0@
                    && full@[p].signatures@.len() == 4,
        decreases 6 - fi,
    {
        match &state.config[fi] {
            Option::Some(s) => {
                let mut sigs: Vec<Signature> = Vec::new();
                let mut j: usize = 0;
                while j < s.signatures.len()
                    invariant
                        j <= s.signatures@.len(),
                        sigs@.len() == j,
                        forall|t: int| 0 <= t < j ==> (#[trigger] sigs@[t])@ == s.signatures@[t]@,
                    decreases s.signatures@.len() - j,
                {
                    sigs.push(s.signatures[j].duplicate());
                    j = j + 1;
                }
                let d = Side { signatures: sigs };
                proof {
                    assert(d@ =~= (*s)@);
                }
                full.push(d);
            },
            Option::None => {
                proof {
                    assert(false);
                }
            },
        }
        fi = fi + 1;
    }
    proof {
        let prov = choose|prov: Seq<int>| #[trigger] state_prov_ok(st_config, st_used, sides@, prov);
        assert(side_views_of(full) =~= st_config.map_values(|o: Option<Side>| o->Some_0@));
        assert forall|p: int| 0 <= p < 6 implies 0 <= #[trigger] prov[p] < sides@.len()
            && is_rotation(side_views_of(full)[p], sides@[prov[p]]@) by {
            assert(st_config[p] is Some);
            assert(side_views_of(full)[p] == full@[p]@);
        }
        assert(side_views_of(full)[1] == sides@[0]@);
        assert forall|q: int| 0 <= q < 6 && q != 1 implies placement_matched(
            side_views_of(full),
            q,
        ) by {
            assert(st_config[q] is Some);
            assert(state_placed_matched(st_config, q));
            let (p2, e2) = choose|p2: int, e2: int|
                0 <= p2 < 6 && 0 <= e2 < 4 && (#[trigger] st_config[p2]) is Some && (
                #[trigger] neighbor_table(p2)[e2]).1 == q && matched_pairs(
                    st_config[p2]->Some_0@[dir_index(neighbor_table(p2)[e2].0)],
                    st_config[q]->Some_0@[dir_index(neighbor_table(p2)[e2].2)],
                ).len() >= 1;
            assert(side_views_of(full)[p2] == st_config[p2]->Some_0@);
            assert(side_views_of(full)[q] == st_config[q]->Some_0@);
            assert(matched_pairs(
                side_views_of(full)[p2][dir_index(neighbor_table(p2)[e2].0)],
                side_views_of(full)[q][dir_index(neighbor_table(p2)[e2].2)],
            ).len() >= 1);
        }
        assert(valid_assembly(side_views_of(full), sides@));
        assert forall|p: int| 0 <= p < 6 implies wf_side((#[trigger] full@[p])@)
            && full@[p]@[0].width == sides@[0]@[0].width by {
            assert(st_config[p] is Some);
            lemma_rotation_wf(full@[p]@, sides@[prov[p]]@);
        }
    }
    full
}

/// A configuration that holds only the first input face, unrotated at
/// position 1, is a valid search state.
proof fn lemma_start_state_ok(config: Seq<Option<Side>>, sides: Seq<Side>)
    requires
        sides.len() == 6,
        forall|i: int| 0 <= i < 6 ==> wf_side((#[trigger] sides[i])@),
        config.len() == 6,
        config[0] is None,
        config[2] is None,
        config[3] is None,
        config[4] is None,
        config[5] is None,
        config[1] is Some,
        config[1]->Some_0@ == sides[0]@,
        config[1]->Some_0.signatures@.len() == 4,
    ensures
        state_ok(config, 1u8, sides),
{
    let prov0 = seq![-1int, 0int, -1int, -1int, -1int, -1int];
    assert(mask_bit(1u8, 0)) by {
        assert((1u8 >> 0u8) & 1 == 1) by (bit_vector);
    }
    assert(rotation_eq(config[1]->Some_0@, sides[0]@, 0));
    lemma_rotation_wf(config[1]->Some_0@, sides[0]@);
    assert forall|p: int|
        0 <= p < 6 && (#[trigger] config[p]) is Some implies 0 <= prov0[p] < sides.len()
            && mask_bit(1u8, prov0[p]) && is_rotation(config[p]->Some_0@, sides[prov0[p]]@)
            && config[p]->Some_0.signatures@.len() == 4 && wf_side(config[p]->Some_0@) by {
        assert(p == 1);
    }
    assert forall|p: int, q: int|
        0 <= p < 6 && 0 <= q < 6 && p != q && (#[trigger] config[p]) is Some && (
        #[trigger] config[q]) is Some implies prov0[p] != prov0[q] by {
        assert(p == 1 && q == 1);
    }
    assert(state_prov_ok(config, 1u8, sides, prov0));
    assert forall|q: int|
        0 <= q < 6 && q != 1 && (#[trigger] config[q]) is Some implies state_placed_matched(
        config,
        q,
    ) by {
        assert(q == 1);
    }
}

/// The start state of the search: cube position 1 holds input face 0,
/// unrotated, and every other position is free.
fn make_start_state(sides: &Vec<Side>) -> (r: AsmState)
    requires
        sides@.len() == 6,
        forall|i: int| 0 <= i < 6 ==> wf_side((#[trigger] sides@[i])@),
        forall|i: int| 0 <= i < 6 ==> (#[trigger] sides@[i]).signatures@.len() == 4,
    ensures
        state_ok(r.config@, r.used, sides@),
{
    let mut config0: Vec<Option<Side>> = Vec::new();
    config0.push(Option::None);
    config0.push(Option::Some(sides[0].to_rotated(Direction::Top, Direction::Top)));
    config0.push(Option::None);
    config0.push(Option::None);
    config0.push(Option::None);
    config0.push(Option::None);
    proof {
        let s0 = sides@[0]@;
        assert(rotate_side(s0, 0) =~= s0);
        assert(config0@[1]->Some_0@ == s0);
        lemma_start_state_ok(config0@, sides@);
    }
    AsmState { config: config0, used: 1u8 }
}

/// The connection pairs contributed by table entries from `(p, e)` onward,
/// in search order.
pub open spec fn conn_pairs(cv: Seq<Seq<SigView>>, p: int, e: int) -> Seq<(Node, Node)>
    decreases 6 - p, 4 - e,
{
    if p < 0 || p >= 6 || e < 0 || e > 4 {
        Seq::empty()
    } else if e == 4 {
        conn_pairs(cv, p + 1, 0)
    } else {
        let entry = neighbor_table(p)[e];
        matched_pairs(cv[p][dir_index(entry.0)], cv[entry.1 as int][dir_index(entry.2)])
            + conn_pairs(cv, p, e + 1)
    }
}

/// Find all boundary-node pairings implied by one valid assembly: for every
/// cube position and every entry of its adjacency table, the matching node
/// pairs between that position's edge signature and the neighbor's required
/// edge signature.
pub fn get_connections(configuration: &Vec<Side>) -> (r: Vec<(Node, Node)>)
    requires
        configuration@.len() == 6,
        forall|p: int| 0 <= p < 6 ==> wf_side((#[trigger] configuration@[p])@),
        forall|p: int| 0 <= p < 6 ==> (#[trigger] configuration@[p]).signatures@.len() == 4,
        forall|p: int, q: int|
            0 <= p < 6 && 0 <= q < 6 ==> (#[trigger] configuration@[p])@[0].width == (
            #[trigger] configuration@[q])@[0].width,
    ensures
        r@ == conn_pairs(side_views_of(*configuration), 0, 0),
{
    let ghost cv = side_views_of(*configuration);
    let mut result: Vec<(Node, Node)> = Vec::new();
    let mut p: usize = 0;
    while p < 6
        invariant
            configuration@.len() == 6,
            forall|q: int| 0 <= q < 6 ==> wf_side((#[trigger] configuration@[q])@),
            forall|q: int| 0 <= q < 6 ==> (#[trigger] configuration@[q]).signatures@.len() == 4,
            forall|q: int, q2: int|
                0 <= q < 6 && 0 <= q2 < 6 ==> (#[trigger] configuration@[q])@[0].width == (
                #[trigger] configuration@[q2])@[0].width,
            cv == side_views_of(*configuration),
            cv.len() == 6,
            p <= 6,
            result@ + conn_pairs(cv, p as int, 0) == conn_pairs(cv, 0, 0),
        decreases 6 - p,
    {
        let neighbors = Side::get_neighbors(p);
        let mut e: usize = 0;
        while e < 4
            invariant
                configuration@.len() == 6,
                forall|q: int| 0 <= q < 6 ==> wf_side((#[trigger] configuration@[q])@),
                forall|q: int|
                    0 <= q < 6 ==> (#[trigger] configuration@[q]).signatures@.len() == 4,
                forall|q: int, q2: int|
                    0 <= q < 6 && 0 <= q2 < 6 ==> (#[trigger] configuration@[q])@[0].width == (
                    #[trigger] configuration@[q2])@[0].width,
                cv == side_views_of(*configuration),
                cv.len() == 6,
                p < 6,
                neighbors@ == neighbor_table(p as int),
                neighbors@.len() == 4,
                forall|k: int| 0 <= k < 4 ==> (#[trigger] neighbors@[k]).1 < 6,
                e <= 4,
                result@ + conn_pairs(cv, p as int, e as int) == conn_pairs(cv, 0, 0),
            decreases 4 - e,
        {
            let (from_dir, to_side, to_dir) = neighbors[e];
            let ghost result0 = result@;
            let ghost a = cv[p as int][dir_index(from_dir)];
            let ghost b = cv[to_side as int][dir_index(to_dir)];
            let ms = configuration[p].get_signature(from_dir).get_matches(
                configuration[to_side].get_signature(to_dir),
            );
            match ms {
                Option::Some(pairs) => {
                    let mut t: usize = 0;
                    while t < pairs.len()
                        invariant
                            t <= pairs@.len(),
                            result@ == result0 + pairs@.subrange(0, t as int),
                        decreases pairs@.len() - t,
                    {
                        proof {
                            assert(result0 + pairs@.subrange(0, t as int + 1) =~= (result0
                                + pairs@.subrange(0, t as int)).push(pairs@[t as int]));
                        }
                        result.push(pairs[t]);
                        t = t + 1;
                    }
                    proof {
                        assert(pairs@.subrange(0, pairs@.len() as int) =~= pairs@);
                        assert(result@ == result0 + matched_pairs(a, b));
                    }
                },
                Option::None => {
                    proof {
                        assert(matched_pairs(a, b).len() == 0);
                        assert(matched_pairs(a, b) =~= Seq::<(Node, Node)>::empty());
                        assert(result@ =~= result0 + matched_pairs(a, b));
                    }
                },
            }
            proof {
                assert(conn_pairs(cv, p as int, e as int) == matched_pairs(a, b) + conn_pairs(
                    cv,
                    p as int,
                    e as int + 1,
                ));
                assert(result0 + conn_pairs(cv, p as int, e as int) == conn_pairs(cv, 0, 0));
                assert((result0 + matched_pairs(a, b)) + conn_pairs(cv, p as int, e as int + 1)
                    =~= result0 + (matched_pairs(a, b) + conn_pairs(cv, p as int, e as int + 1)));
            }
            e = e + 1;
        }
        proof {
            assert(conn_pairs(cv, p as int, 4) == conn_pairs(cv, p as int + 1, 0));
        }
        p = p + 1;
    }
    proof {
        assert(conn_pairs(cv, 6, 0) =~= Seq::<(Node, Node)>::empty());
        assert(result@ =~= result@ + conn_pairs(cv, 6, 0));
    }
    result
}

/// Rotate the matched face onto the required direction and push the
/// extended state, unless an identical state was already seen.
#[verifier::rlimit(100)]
fn push_matched_state(
    sides: &Vec<Side>,
    state: &AsmState,
    pi: usize,
    from_dir: Direction,
    to_side: usize,
    to_dir: Direction,
    od: Direction,
    oi: usize,
    queue: &mut Vec<AsmState>,
    seen: &mut Vec<AsmState>,
)
    requires
        sides@.len() == 6,
        forall|i: int| 0 <= i < 6 ==> wf_side((#[trigger] sides@[i])@),
        forall|i: int| 0 <= i < 6 ==> (#[trigger] sides@[i]).signatures@.len() == 4,
        state_ok(state.config@, state.used, sides@),
        pi < 6,
        state.config@[pi as int] is Some,
        to_side < 6,
        state.config@[to_side as int] is None,
        oi < 6,
        state.used & (1u8 << (oi as u8)) == 0,
        exists|e: int|
            0 <= e < 4 && #[trigger] neighbor_table(pi as int)[e] == ((from_dir, to_side, to_dir)),
        matched_pairs(
            state.config@[pi as int]->Some_0@[dir_index(from_dir)],
            sides@[oi as int]@[dir_index(od)],
        ).len() >= 1,
        forall|t: int|
            0 <= t < old(queue)@.len() ==> state_ok(
                (#[trigger] old(queue)@[t]).config@,
                old(queue)@[t].used,
                sides@,
            ),
    ensures
        forall|t: int|
            0 <= t < final(queue)@.len() ==> state_ok(
                (#[trigger] final(queue)@[t]).config@,
                final(queue)@[t].used,
                sides@,
            ),
{
    let ghost st_config = state.config@;
    let ghost st_used = state.used;
    // rotate the face so the matching edge lands on the
    // required direction and extend the state
    let new_side = sides[oi].to_rotated(od, to_dir);
    let mut new_config = duplicate_config(&state.config);
    new_config[to_side] = Option::Some(new_side);
    let new_used = state.used | (1u8 << (oi as u8));
    proof {
        let prov = choose|prov: Seq<int>| #[trigger] state_prov_ok(
            st_config,
            st_used,
            sides@,
            prov,
        );
        let nprov = prov.update(to_side as int, oi as int);
        lemma_mask_set(st_used, oi as u8);
        lemma_rotate_is_rotation(
            new_config@[to_side as int]->Some_0@,
            sides@[oi as int]@,
            crate::cube::rot_shift(od, to_dir),
        );
        lemma_rotation_wf(
            new_config@[to_side as int]->Some_0@,
            sides@[oi as int]@,
        );
        assert forall|p: int|
            0 <= p < 6 && (#[trigger] new_config@[p]) is Some implies 0 <= nprov[p]
                < sides@.len() && mask_bit(new_used, nprov[p]) && is_rotation(
            new_config@[p]->Some_0@,
            sides@[nprov[p]]@,
        ) && new_config@[p]->Some_0.signatures@.len() == 4 && wf_side(
            new_config@[p]->Some_0@,
        ) by {
            if p == to_side as int {
            } else {
                assert(st_config[p] is Some);
                assert(new_config@[p]->Some_0@ == st_config[p]->Some_0@);
            }
        }
        assert(state_prov_ok(new_config@, new_used, sides@, nprov));
        // position 1 is untouched, and the new face sits on
        // an edge that matched the neighbor it was placed
        // against
        assert(st_config[1] is Some);
        assert(new_config@[1]->Some_0@ == sides@[0]@);
        let k = crate::cube::rot_shift(od, to_dir);
        assert((dir_index(to_dir) - k + 4) % 4 == dir_index(od));
        assert(new_config@[to_side as int]->Some_0@[dir_index(to_dir)]
            == sides@[oi as int]@[dir_index(od)]);
        assert(new_config@[pi as int]->Some_0@ == st_config[pi as int]->Some_0@);
        let ei = choose|e: int|
            0 <= e < 4 && #[trigger] neighbor_table(pi as int)[e] == ((
            from_dir,
            to_side,
            to_dir,
            ));
        assert(state_placed_matched(new_config@, to_side as int)) by {
            assert((#[trigger] neighbor_table(pi as int)[ei]).1 == to_side as int);
            assert(matched_pairs(
                new_config@[pi as int]->Some_0@[dir_index(
                    neighbor_table(pi as int)[ei].0,
                )],
                new_config@[to_side as int]->Some_0@[dir_index(
                    neighbor_table(pi as int)[ei].2,
                )],
            ).len() >= 1);
        }
        assert forall|q: int|
            0 <= q < 6 && q != 1 && (#[trigger] new_config@[q]) is Some implies
            state_placed_matched(new_config@, q) by {
            if q == to_side as int {
            } else {
                assert(st_config[q] is Some);
                assert(state_placed_matched(st_config, q));
                let (p2, e2) = choose|p2: int, e2: int|
                    0 <= p2 < 6 && 0 <= e2 < 4 && (#[trigger] st_config[p2]) is Some
                        && (#[trigger] neighbor_table(p2)[e2]).1 == q
                        && matched_pairs(
                        st_config[p2]->Some_0@[dir_index(
                            neighbor_table(p2)[e2].0,
                        )],
                        st_config[q]->Some_0@[dir_index(neighbor_table(p2)[e2].2)],
                    ).len() >= 1;
                assert(p2 != to_side as int);
                assert(new_config@[p2]->Some_0@ == st_config[p2]->Some_0@);
                assert(new_config@[q]->Some_0@ == st_config[q]->Some_0@);
                assert(matched_pairs(
                    new_config@[p2]->Some_0@[dir_index(neighbor_table(p2)[e2].0)],
                    new_config@[q]->Some_0@[dir_index(neighbor_table(p2)[e2].2)],
                ).len() >= 1);
            }
        }
    }
    let new_state = AsmState { config: new_config, used: new_used };
    // skip states that were already seen
    let mut dup = false;
    let mut si: usize = 0;
    while si < seen.len()
        invariant
            si <= seen@.len(),
        decreases seen@.len() - si,
    {
        if state_eq(&seen[si], &new_state) {
            dup = true;
        }
        si = si + 1;
    }
    if !dup {
        let seen_copy = AsmState {
            config: duplicate_config(&new_state.config),
            used: new_state.used,
        };
        seen.push(seen_copy);
        proof {
            assert(state_ok(new_state.config@, new_state.used, sides@));
        }
        queue.push(new_state);
    }
}

/// A node drawn from some signature of the configuration.
pub open spec fn config_node(cv: Seq<Seq<SigView>>, m: Node) -> bool {
    exists|p: int, d: int, k: int|
        0 <= p < 6 && 0 <= d < 4 && 0 <= k < cv[p][d].nodes.len() && m == #[trigger] cv[p][d].nodes[k]
}

/// Both nodes of every reported connection pair come from signatures of
/// the configuration.
pub proof fn lemma_conn_pairs_nodes(cv: Seq<Seq<SigView>>, p: int, e: int, t: int)
    requires
        cv.len() == 6,
        forall|p2: int| 0 <= p2 < 6 ==> (#[trigger] cv[p2]).len() == 4,
        forall|p2: int, d2: int|
            0 <= p2 < 6 && 0 <= d2 < 4 ==> crate::cube::wf_sig(#[trigger] cv[p2][d2]),
        0 <= t < conn_pairs(cv, p, e).len(),
    ensures
        config_node(cv, conn_pairs(cv, p, e)[t].0),
        config_node(cv, conn_pairs(cv, p, e)[t].1),
    decreases 6 - p, 4 - e,
{
    if p < 0 || p >= 6 || e < 0 || e > 4 {
    } else if e == 4 {
        lemma_conn_pairs_nodes(cv, p + 1, 0, t);
    } else {
        let entry = neighbor_table(p)[e];
        let a = cv[p][dir_index(entry.0)];
        let b = cv[entry.1 as int][dir_index(entry.2)];
        let head = matched_pairs(a, b);
        assert(entry.1 < 6);
        if t < head.len() {
            crate::cube::lemma_prefix_pairs_member(a, b, a.positions.len() as int, t);
            let i = choose|i: int|
                0 <= i < a.positions.len() && crate::cube::has_partner(a, b, i)
                    && #[trigger] crate::cube::prefix_pairs(a, b, a.positions.len() as int)[t]
                    == (a.nodes[i], b.nodes[crate::cube::partner(a, b, i)]);
            let j = crate::cube::partner(a, b, i);
            assert(0 <= j < b.positions.len() && crate::cube::match_at(a, b, i, j));
            assert(conn_pairs(cv, p, e)[t] == head[t]);
            assert(head[t].0 == a.nodes[i]);
            assert(head[t].1 == b.nodes[j]);
            assert(0 <= dir_index(entry.0) < 4);
            assert(0 <= dir_index(entry.2) < 4);
            assert(config_node(cv, head[t].0));
            assert(config_node(cv, head[t].1));
        } else {
            lemma_conn_pairs_nodes(cv, p, e + 1, t - head.len());
            assert(conn_pairs(cv, p, e)[t] == conn_pairs(cv, p, e + 1)[t - head.len()]);
        }
    }
}

} // verus!
