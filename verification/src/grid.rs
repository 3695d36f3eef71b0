//! Grids of cells and the nodes derived from them.

use vstd::prelude::*;

verus! {

/// A wall cell: never entered.
pub const WALL: u8 = 35;

/// An open floor cell.
pub const OPEN: u8 = 46;

/// An outlet cell: a distinguished cell that must remain a graph node
/// through every reduction pass.
pub const OUTLET: u8 = 79;

/// A node in a grid
#[derive(Clone, Copy, PartialEq, Eq, Structural, Hash, Debug, PartialOrd, Ord)]
pub struct Node {
    /// The node's x coordinate
    pub x: usize,
    /// The node's y coordinate
    pub y: usize,
    /// The index of the grid this node belongs to
    pub grid: usize,
}

/// An edge between two nodes
#[derive(Clone, Copy, PartialEq, Eq, Structural, Hash, Debug)]
pub struct Edge {
    /// The target node
    pub to: Node,
    /// The number of steps required to get from the source to the target node
    pub steps: usize,
}

/// A grid
pub struct Grid<T> {
    /// The actual grid, row by row
    pub grid: Vec<T>,
    /// The grid's width
    pub width: usize,
    /// The grid's height
    pub height: usize,
}

impl<T> Grid<T> {
    /// The backing vector holds exactly one value per cell.
    pub open spec fn wf(&self) -> bool {
        self.grid@.len() == self.width * self.height
    }

    /// The value stored at the given cell.
    pub open spec fn spec_at(&self, x: int, y: int) -> T {
        self.grid@[y * self.width + x]
    }
}

/// A cell's row-major index lies below the cell count.
pub proof fn lemma_cell_index(x: int, y: int, w: int, h: int)
    requires
        0 <= x < w,
        0 <= y < h,
    ensures
        0 <= y * w + x < w * h,
    decreases h,
{
    if y == h - 1 {
        assert(y * w + x < w * h) by (nonlinear_arith)
            requires 0 <= x < w, 0 <= y, y == h - 1;
        assert(y * w + x >= 0) by (nonlinear_arith)
            requires 0 <= x, 0 <= y, 0 <= w;
    } else {
        lemma_cell_index(x, y, w, h - 1);
        assert(w * (h - 1) <= w * h) by (nonlinear_arith)
            requires 0 <= w;
    }
}

/// Distinct cells have distinct row-major indexes.
pub proof fn lemma_cell_index_injective(x1: int, y1: int, x2: int, y2: int, w: int)
    requires
        0 <= x1 < w,
        0 <= x2 < w,
        0 <= y1,
        0 <= y2,
        y1 * w + x1 == y2 * w + x2,
    ensures
        x1 == x2 && y1 == y2,
{
    assert(x1 == x2 && y1 == y2) by (nonlinear_arith)
        requires
            0 <= x1 < w,
            0 <= x2 < w,
            0 <= y1,
            0 <= y2,
            y1 * w + x1 == y2 * w + x2,
    ;
}

pub trait Get<T, C> {
    /// When the position may be read.
    spec fn get_in_range(&self, x: C, y: C) -> bool;

    /// The value at the given position.
    spec fn spec_get(&self, x: C, y: C) -> T;

    /// Get the value at the given position
    fn get(&self, x: C, y: C) -> (r: T)
        requires
            self.get_in_range(x, y),
        ensures
            r == self.spec_get(x, y),
    ;
}

impl<T: Copy> Get<T, usize> for Grid<T> {
    open spec fn get_in_range(&self, x: usize, y: usize) -> bool {
        self.wf() && x < self.width && y < self.height
    }

    open spec fn spec_get(&self, x: usize, y: usize) -> T {
        self.spec_at(x as int, y as int)
    }

    fn get(&self, x: usize, y: usize) -> (r: T) {
        let n: usize = self.grid.len();
        proof {
            lemma_cell_index(x as int, y as int, self.width as int, self.height as int);
        }
        self.grid[y * self.width + x]
    }
}

impl<T: Copy> Get<T, i64> for Grid<T> {
    open spec fn get_in_range(&self, x: i64, y: i64) -> bool {
        self.wf() && 0 <= x < self.width && 0 <= y < self.height
    }

    open spec fn spec_get(&self, x: i64, y: i64) -> T {
        self.spec_at(x as int, y as int)
    }

    fn get(&self, x: i64, y: i64) -> (r: T) {
        let n: usize = self.grid.len();
        proof {
            lemma_cell_index(x as int, y as int, self.width as int, self.height as int);
        }
        self.grid[(y as usize) * self.width + (x as usize)]
    }
}

pub trait Has<C> {
    /// Whether the given position is within the grid bounds.
    spec fn spec_has(&self, x: C, y: C) -> bool;

    /// Check if the given position is within the grid bounds
    fn has(&self, x: C, y: C) -> (r: bool)
        ensures
            r == self.spec_has(x, y),
    ;
}

impl<T> Has<usize> for Grid<T> {
    open spec fn spec_has(&self, x: usize, y: usize) -> bool {
        x < self.width && y < self.height
    }

    fn has(&self, x: usize, y: usize) -> (r: bool) {
        x < self.width && y < self.height
    }
}

impl<T> Has<i64> for Grid<T> {
    open spec fn spec_has(&self, x: i64, y: i64) -> bool {
        0 <= x && (x as int) < self.width && 0 <= y && (y as int) < self.height
    }

    fn has(&self, x: i64, y: i64) -> (r: bool) {
        if x >= 0 && y >= 0 {
            (x as u64) < (self.width as u64) && (y as u64) < (self.height as u64)
        } else {
            false
        }
    }
}

impl<T: Copy> Grid<T> {
    /// Set the value at the given position
    pub fn set(&mut self, x: usize, y: usize, v: T)
        requires
            old(self).wf(),
            x < old(self).width,
            y < old(self).height,
        ensures
            final(self).wf(),
            final(self).width == old(self).width,
            final(self).height == old(self).height,
            final(self).grid@ == old(self).grid@.update(y * old(self).width + x, v),
    {
        let n: usize = self.grid.len();
        proof {
            lemma_cell_index(x as int, y as int, self.width as int, self.height as int);
        }
        self.grid[y * self.width + x] = v;
    }

    /// Create a grid filled with copies of one value
    pub fn filled(width: usize, height: usize, v: T) -> (r: Grid<T>)
        requires
            width * height <= usize::MAX,
        ensures
            r.wf(),
            r.width == width,
            r.height == height,
            r.grid@ == Seq::new((width * height) as nat, |i: int| v),
    {
        let mut cells: Vec<T> = Vec::new();
        let n = width * height;
        let mut i: usize = 0;
        while i < n
            invariant
                i <= n,
                cells@ =~= Seq::new(i as nat, |j: int| v),
            decreases n - i,
        {
            cells.push(v);
            i = i + 1;
        }
        proof {
            assert(cells@ =~= Seq::new(n as nat, |j: int| v));
        }
        Grid { grid: cells, width, height }
    }
}

} // verus!
