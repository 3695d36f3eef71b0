//! Best monotone routes across a grid of scores.
//!
//! A sweep relaxes every cell toward one corner, moving only in the two
//! given directions, and records for each cell the best score of any route
//! that reached it.

use vstd::prelude::*;

use crate::grid::{lemma_cell_index, lemma_cell_index_injective};

verus! {

/// A route that starts at `start`, stays inside the grid and advances one
/// cell at a time in direction `dx` or `dy` only.
pub open spec fn is_mono_route(
    p: Seq<(int, int)>,
    start: (int, int),
    dx: int,
    dy: int,
    width: int,
    height: int,
) -> bool {
    &&& p.len() >= 1
    &&& p[0] == start
    &&& forall|k: int|
        0 <= k < p.len() ==> 0 <= (#[trigger] p[k]).0 < width && 0 <= p[k].1 < height
    &&& forall|k: int|
        0 <= k < p.len() - 1 ==> (#[trigger] p[k + 1]) == ((p[k].0 + dx, p[k].1)) || p[k + 1] == (
        (p[k].0, p[k].1 + dy))
}

/// The total score collected along a route.
pub open spec fn route_sum(grid: Seq<u64>, width: int, p: Seq<(int, int)>) -> int
    decreases p.len(),
{
    if p.len() == 0 {
        0
    } else {
        route_sum(grid, width, p.drop_last()) + grid[p.last().1 * width + p.last().0]
    }
}

/// Extending a route adds exactly the new cell's score.
proof fn lemma_route_sum_push(grid: Seq<u64>, width: int, p: Seq<(int, int)>, c: (int, int))
    ensures
        route_sum(grid, width, p.push(c)) == route_sum(grid, width, p) + grid[c.1 * width + c.0],
{
    assert(p.push(c).drop_last() =~= p);
    assert(p.push(c).last() == c);
}

/// Every positive entry of the table is the exact score of some monotone
/// route from the start to that cell.
pub open spec fn table_sound(
    best: Seq<u64>,
    grid: Seq<u64>,
    st: (int, int),
    dx: int,
    dy: int,
    w: int,
    h: int,
) -> bool {
    forall|x: int, y: int|
        0 <= x < w && 0 <= y < h && #[trigger] best[y * w + x] > 0 ==> exists|p: Seq<(int, int)>|
            is_mono_route(p, st, dx, dy, w, h) && p.last() == ((x, y)) && route_sum(grid, w, p)
                == best[y * w + x]
}

/// Every queued entry carries the exact score of some monotone route from
/// the start to its cell.
pub open spec fn queue_sound(
    queue: Seq<(u64, usize, usize)>,
    grid: Seq<u64>,
    st: (int, int),
    dx: int,
    dy: int,
    w: int,
    h: int,
) -> bool {
    forall|t: int|
        0 <= t < queue.len() ==> (#[trigger] queue[t]).1 < w && queue[t].2 < h && exists|
            p: Seq<(int, int)>,
        |
            is_mono_route(p, st, dx, dy, w, h) && p.last() == ((
            queue[t].1 as int,
            queue[t].2 as int,
            )) && route_sum(grid, w, p) == queue[t].0
}

/// The cell lies on the start's side of travel: no monotone route can
/// move against a direction, so every reached cell satisfies this.
pub open spec fn beyond(c: (int, int), st: (int, int), dx: int, dy: int) -> bool {
    &&& dx >= 0 ==> c.0 >= st.0
    &&& dx <= 0 ==> c.0 <= st.0
    &&& dy >= 0 ==> c.1 >= st.1
    &&& dy <= 0 ==> c.1 <= st.1
}

/// For every cell, the best score found for any monotone route from
/// `start` toward `end`: a positive entry is the exact score of some such
/// route ending at that cell.
pub fn bfs(
    grid: &[u64],
    width: usize,
    height: usize,
    start: (usize, usize),
    end: (usize, usize),
    dx: isize,
    dy: isize,
) -> (best: Vec<u64>)
    requires
        width >= 1,
        height >= 1,
        grid@.len() == width * height,
        start.0 < width,
        start.1 < height,
        end.0 < width,
        end.1 < height,
        -1 <= dx <= 1,
        -1 <= dy <= 1,
    ensures
        best@.len() == width * height,
        table_sound(
            best@,
            grid@,
            ((start.0 as int, start.1 as int)),
            dx as int,
            dy as int,
            width as int,
            height as int,
        ),
        best@[start.1 * width + start.0] == 0,
{
    let ghost gw = width as int;
    let ghost gh = height as int;
    let ghost st = ((start.0 as int, start.1 as int));
    let cells: usize = grid.len();
    let mut best: Vec<u64> = Vec::new();
    let mut i: usize = 0;
    while i < cells
        invariant
            cells == width * height,
            i <= cells,
            best@.len() == i,
            forall|t: int| 0 <= t < i ==> #[trigger] best@[t] == 0,
        decreases cells - i,
    {
        best.push(0);
        i = i + 1;
    }

    let mut queue: Vec<(u64, usize, usize)> = Vec::new();
    proof {
        lemma_cell_index(start.0 as int, start.1 as int, gw, gh);
        let p0 = seq![st];
        assert(is_mono_route(p0, st, dx as int, dy as int, gw, gh));
        assert(p0.drop_last() =~= Seq::<(int, int)>::empty());
        assert(route_sum(grid@, gw, p0.drop_last()) == 0);
        assert(p0.last() == st);
        assert(route_sum(grid@, gw, p0) == grid@[st.1 * gw + st.0]);
        assert forall|x2: int, y2: int|
            0 <= x2 < gw && 0 <= y2 < gh implies #[trigger] best@[y2 * gw + x2] == 0 by {
            lemma_cell_index(x2, y2, gw, gh);
        }
    }
    queue.push((grid[start.1 * width + start.0], start.0, start.1));

    let mut fuel: usize = 100000000;
    while fuel > 0 && queue.len() > 0
        invariant
            width >= 1,
            height >= 1,
            grid@.len() == width * height,
            end.0 < width,
            end.1 < height,
            -1 <= dx <= 1,
            -1 <= dy <= 1,
            gw == width as int,
            gh == height as int,
            st == ((start.0 as int, start.1 as int)),
            start.0 < width,
            start.1 < height,
            best@.len() == width * height,
            queue_sound(queue@, grid@, st, dx as int, dy as int, gw, gh),
            table_sound(best@, grid@, st, dx as int, dy as int, gw, gh),
            forall|t: int|
                0 <= t < queue@.len() ==> beyond(
                    (((#[trigger] queue@[t]).1 as int, queue@[t].2 as int)),
                    st,
                    dx as int,
                    dy as int,
                ),
            best@[st.1 * gw + st.0] == 0,
        decreases fuel,
    {
        fuel = fuel - 1;
        let ghost queue0 = queue@;
        let (score, x, y) = queue.pop().unwrap();
        proof {
            assert(queue0[queue0.len() - 1] == (score, x, y));
            assert(beyond(((x as int, y as int)), st, dx as int, dy as int));
        }

        // step sideways
        if dx != 0 {
            let x_ok = if dx > 0 {
                x + 1 <= end.0
            } else {
                x > 0 && x - 1 >= end.0
            };
            if x_ok {
                let nx = if dx > 0 {
                    x + 1
                } else {
                    x - 1
                };
                let ghost queue_b = queue@;
                let ghost best_b = best@;
                relax(
                    grid,
                    width,
                    height,
                    &mut best,
                    &mut queue,
                    score,
                    x,
                    y,
                    nx,
                    y,
                    Ghost(st),
                    Ghost(dx as int),
                    Ghost(dy as int),
                );
                proof {
                    assert(beyond(((nx as int, y as int)), st, dx as int, dy as int));
                    lemma_cell_index(st.0, st.1, gw, gh);
                    if (y as int) * gw + nx as int == st.1 * gw + st.0 {
                        lemma_cell_index_injective(nx as int, y as int, st.0, st.1, gw);
                        assert(false);
                    }
                    assert(best@[st.1 * gw + st.0] == best_b[st.1 * gw + st.0]);
                    assert forall|t: int|
                        0 <= t < queue@.len() implies beyond(
                        (((#[trigger] queue@[t]).1 as int, queue@[t].2 as int)),
                        st,
                        dx as int,
                        dy as int,
                    ) by {
                        if 0 <= t < queue_b.len() && queue@[t] == queue_b[t] {
                        } else {
                            assert(queue@[t].1 == nx && queue@[t].2 == y);
                        }
                    }
                }
            }
        }
        // step lengthways
        if dy != 0 {
            let y_ok = if dy > 0 {
                y + 1 <= end.1
            } else {
                y > 0 && y - 1 >= end.1
            };
            if y_ok {
                let ny = if dy > 0 {
                    y + 1
                } else {
                    y - 1
                };
                let ghost queue_c = queue@;
                let ghost best_c = best@;
                relax(
                    grid,
                    width,
                    height,
                    &mut best,
                    &mut queue,
                    score,
                    x,
                    y,
                    x,
                    ny,
                    Ghost(st),
                    Ghost(dx as int),
                    Ghost(dy as int),
                );
                proof {
                    assert(beyond(((x as int, ny as int)), st, dx as int, dy as int));
                    lemma_cell_index(st.0, st.1, gw, gh);
                    if (ny as int) * gw + x as int == st.1 * gw + st.0 {
                        lemma_cell_index_injective(x as int, ny as int, st.0, st.1, gw);
                        assert(false);
                    }
                    assert(best@[st.1 * gw + st.0] == best_c[st.1 * gw + st.0]);
                    assert forall|t: int|
                        0 <= t < queue@.len() implies beyond(
                        (((#[trigger] queue@[t]).1 as int, queue@[t].2 as int)),
                        st,
                        dx as int,
                        dy as int,
                    ) by {
                        if 0 <= t < queue_c.len() && queue@[t] == queue_c[t] {
                        } else {
                            assert(queue@[t].1 == x && queue@[t].2 == ny);
                        }
                    }
                }
            }
        }
    }
    best
}

/// Improve the best score of the target cell when this route beats it, and
/// queue the cell for further extension.
fn relax(
    grid: &[u64],
    width: usize,
    height: usize,
    best: &mut Vec<u64>,
    queue: &mut Vec<(u64, usize, usize)>,
    score: u64,
    x: usize,
    y: usize,
    nx: usize,
    ny: usize,
    Ghost(st): Ghost<(int, int)>,
    Ghost(gdx): Ghost<int>,
    Ghost(gdy): Ghost<int>,
)
    requires
        width >= 1,
        height >= 1,
        grid@.len() == width * height,
        x < width,
        y < height,
        nx < width,
        ny < height,
        ((nx as int, ny as int)) == ((x as int + gdx, y as int)) || ((nx as int, ny as int)) == ((
        x as int,
        y as int + gdy,
        )),
        exists|p: Seq<(int, int)>|
            is_mono_route(p, st, gdx, gdy, width as int, height as int) && p.last() == ((
            x as int,
            y as int,
            )) && route_sum(grid@, width as int, p) == score,
        old(best)@.len() == width * height,
        table_sound(old(best)@, grid@, st, gdx, gdy, width as int, height as int),
        queue_sound(old(queue)@, grid@, st, gdx, gdy, width as int, height as int),
    ensures
        final(best)@.len() == width * height,
        table_sound(final(best)@, grid@, st, gdx, gdy, width as int, height as int),
        queue_sound(final(queue)@, grid@, st, gdx, gdy, width as int, height as int),
        forall|j: int|
            0 <= j < old(best)@.len() && j != (ny as int) * (width as int) + nx as int
                ==> final(best)@[j] == old(best)@[j],
        forall|t: int|
            0 <= t < final(queue)@.len() ==> (0 <= t < old(queue)@.len() && (#[trigger] final(
            queue)@[t]) == old(queue)@[t]) || (final(queue)@[t].1 == nx && final(queue)@[t].2
                == ny),
{
    let ghost gw = width as int;
    let ghost gh = height as int;
    let n: usize = grid.len();
    proof {
        lemma_cell_index(nx as int, ny as int, gw, gh);
    }
    let cell = grid[ny * width + nx];
    if cell <= u64::MAX - score {
        let new_score = score + cell;
        if best[ny * width + nx] < new_score {
            let ghost best0 = best@;
            let ghost queue1 = queue@;
            best[ny * width + nx] = new_score;
            queue.push((new_score, nx, ny));
            proof {
                let p = choose|p: Seq<(int, int)>|
                    is_mono_route(p, st, gdx, gdy, gw, gh) && p.last() == ((x as int, y as int))
                        && route_sum(grid@, gw, p) == score;
                let c = ((nx as int, ny as int));
                let q = p.push(c);
                assert(is_mono_route(q, st, gdx, gdy, gw, gh)) by {
                    assert forall|k: int|
                        0 <= k < q.len() - 1 implies (#[trigger] q[k + 1]) == ((
                        q[k].0 + gdx,
                        q[k].1,
                    )) || q[k + 1] == ((q[k].0, q[k].1 + gdy)) by {
                        if k < p.len() - 1 {
                            assert(q[k] == p[k]);
                            assert(q[k + 1] == p[k + 1]);
                        } else {
                            assert(q[k] == p.last());
                            assert(q[k + 1] == c);
                        }
                    }
                }
                lemma_route_sum_push(grid@, gw, p, c);
                assert(route_sum(grid@, gw, q) == new_score);
                assert(q.last() == c);
                assert forall|x2: int, y2: int|
                    0 <= x2 < gw && 0 <= y2 < gh && #[trigger] best@[y2 * gw + x2] > 0 implies
                    exists|p2: Seq<(int, int)>|
                        is_mono_route(p2, st, gdx, gdy, gw, gh) && p2.last() == ((x2, y2))
                            && route_sum(grid@, gw, p2) == best@[y2 * gw + x2] by {
                    lemma_cell_index(x2, y2, gw, gh);
                    if y2 * gw + x2 == ny as int * gw + nx as int {
                        lemma_cell_index_injective(x2, y2, nx as int, ny as int, gw);
                        assert(best@[y2 * gw + x2] == new_score);
                    } else {
                        assert(best@[y2 * gw + x2] == best0[y2 * gw + x2]);
                    }
                }
                assert forall|t: int|
                    0 <= t < queue@.len() implies (#[trigger] queue@[t]).1 < gw && queue@[t].2
                        < gh && exists|p2: Seq<(int, int)>|
                        is_mono_route(p2, st, gdx, gdy, gw, gh) && p2.last() == ((
                        queue@[t].1 as int,
                        queue@[t].2 as int,
                        )) && route_sum(grid@, gw, p2) == queue@[t].0 by {
                    if t < queue1.len() {
                        assert(queue@[t] == queue1[t]);
                    } else {
                        assert(queue@[t] == (new_score, nx, ny));
                    }
                }
            }
        }
    }
}

} // verus!
