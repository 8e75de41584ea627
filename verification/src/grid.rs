//! The square sampling grid shared by the surface mesh and the midpoint integrator.
use vstd::prelude::*;
use vstd::arithmetic::div_mod::lemma_fundamental_div_mod;
use vstd::arithmetic::div_mod::lemma_fundamental_div_mod_converse;
use vstd::arithmetic::mul::lemma_mul_inequality;
use vstd::arithmetic::mul::lemma_mul_is_distributive_add_other_way;

verus! {

/// A cell of an `n` by `n` grid: column `i` along x, row `j` along y.
#[derive(Clone, Copy, Debug, PartialEq, Eq, Structural)]
pub struct Cell {
    pub i: usize,
    pub j: usize,
}

/// A vertex of the grid lattice; cell `(i, j)` spans vertices `i..=i+1` by `j..=j+1`.
#[derive(Clone, Copy, Debug, PartialEq, Eq, Structural)]
pub struct Vertex {
    pub i: usize,
    pub j: usize,
}

/// The four corners of a cell, in the order the surface draws them:
/// `(x0, y0)`, `(x1, y0)`, `(x1, y1)`, `(x0, y1)`.
#[derive(Clone, Copy, Debug, PartialEq, Eq, Structural)]
pub struct Quad {
    pub v0: Vertex,
    pub v1: Vertex,
    pub v2: Vertex,
    pub v3: Vertex,
}

/// The cell visited `k`-th when an `n` by `n` grid is walked column by column,
/// each column from its first row to its last.
pub open spec fn cell_at(n: int, k: int) -> Cell {
    Cell { i: (k / n) as usize, j: (k % n) as usize }
}

/// Position, within the walk, of cell `(i, j)` and the facts the walk relies on.
proof fn lemma_cell_position(n: int, i: int, j: int)
    requires
        0 <= i < n,
        0 <= j < n,
    ensures
        0 <= i * n + j < n * n,
        i * n + n == (i + 1) * n,
        (i * n + j) / n == i,
        (i * n + j) % n == j,
{
    lemma_mul_is_distributive_add_other_way(n, i, 1);
    lemma_mul_inequality(i + 1, n, n);
    lemma_mul_inequality(0, i, n);
    lemma_fundamental_div_mod_converse(i * n + j, n, i, j);
}

/// The walk over an `n` by `n` grid visits each cell exactly once: position `k` holds cell
/// `(i, j)` precisely when `i` and `j` are below `n` and `k == i * n + j`.
pub proof fn lemma_walk_is_bijective(n: int, k: int, i: int, j: int)
    requires
        0 < n <= usize::MAX,
        0 <= k < n * n,
        0 <= i,
        0 <= j,
        i <= usize::MAX,
        j <= usize::MAX,
    ensures
        0 <= k / n < n,
        0 <= k % n < n,
        cell_at(n, k) == (Cell { i: i as usize, j: j as usize }) <==> (i < n && j < n && k == i * n
            + j),
{
    lemma_fundamental_div_mod(k, n);
    if k / n >= n {
        lemma_mul_inequality(n, k / n, n);
        assert(n * (k / n) == (k / n) * n) by (nonlinear_arith);
    }
    if i < n && j < n && k == i * n + j {
        lemma_cell_position(n, i, j);
    }
    if cell_at(n, k) == (Cell { i: i as usize, j: j as usize }) {
        assert((k / n) as usize == k / n);
        assert((k % n) as usize == k % n);
        assert(k / n == i);
        assert(k % n == j);
        assert(n * (k / n) == (k / n) * n) by (nonlinear_arith);
    }
}

/// All cells of an `n` by `n` grid in walk order (column by column).
pub fn grid_cells(n: usize) -> (cells: Vec<Cell>)
    requires
        n * n <= usize::MAX,
    ensures
        cells@.len() == n * n,
        forall|k: int| 0 <= k < n * n ==> #[trigger] cells@[k] == cell_at(n as int, k),
{
    let mut cells: Vec<Cell> = Vec::new();
    let mut i: usize = 0;
    while i < n
        invariant
            n * n <= usize::MAX,
            i <= n,
            cells@.len() == i * n,
            forall|k: int| 0 <= k < cells@.len() ==> #[trigger] cells@[k] == cell_at(n as int, k),
        decreases n - i,
    {
        let mut j: usize = 0;
        while j < n
            invariant
                n * n <= usize::MAX,
                i < n,
                j <= n,
                cells@.len() == i * n + j,
                forall|k: int| 0 <= k < cells@.len() ==> #[trigger] cells@[k] == cell_at(n as int, k),
            decreases n - j,
        {
            proof {
                lemma_cell_position(n as int, i as int, j as int);
            }
            cells.push(Cell { i, j });
            j = j + 1;
        }
        proof {
            lemma_cell_position(n as int, i as int, 0);
        }
        i = i + 1;
    }
    cells
}

/// The first cell of the walk over an `n` by `n` grid, if the grid has any cell.
pub fn first_cell(n: usize) -> (c: Option<Cell>)
    ensures
        c == (if n == 0 { None } else { Some(cell_at(n as int, 0)) }),
{
    if n == 0 {
        None
    } else {
        proof {
            lemma_cell_position(n as int, 0, 0);
        }
        Some(Cell { i: 0, j: 0 })
    }
}

/// The cell after `c` in the walk over an `n` by `n` grid: the next row of the same column,
/// else the first row of the next column, else none (the walk is over).
pub fn next_cell(c: Cell, n: usize) -> (next: Option<Cell>)
    requires
        c.i < n,
        c.j < n,
    ensures
        next == (if c.j + 1 < n {
            Some(Cell { i: c.i, j: (c.j + 1) as usize })
        } else if c.i + 1 < n {
            Some(Cell { i: (c.i + 1) as usize, j: 0 })
        } else {
            None
        }),
{
    if c.j + 1 < n {
        Some(Cell { i: c.i, j: c.j + 1 })
    } else if c.i + 1 < n {
        Some(Cell { i: c.i + 1, j: 0 })
    } else {
        None
    }
}

/// Stepping with `next_cell` from `first_cell` is the walk itself: the cell after position
/// `k` is the cell at position `k + 1`, and there is none after the last position.
pub proof fn lemma_next_cell_follows_walk(n: int, k: int)
    requires
        0 < n <= usize::MAX,
        0 <= k < n * n,
    ensures
        cell_at(n, k).i < n,
        cell_at(n, k).j < n,
        k + 1 < n * n ==> (if cell_at(n, k).j + 1 < n {
            Cell { i: cell_at(n, k).i, j: (cell_at(n, k).j + 1) as usize }
        } else {
            Cell { i: (cell_at(n, k).i + 1) as usize, j: 0 }
        }) == cell_at(n, k + 1) && (cell_at(n, k).j + 1 < n || cell_at(n, k).i + 1 < n),
        k + 1 == n * n ==> cell_at(n, k).j + 1 == n && cell_at(n, k).i + 1 == n,
{
    lemma_walk_is_bijective(n, k, 0, 0);
    let i = k / n;
    let j = k % n;
    lemma_fundamental_div_mod(k, n);
    assert(k == i * n + j) by (nonlinear_arith)
        requires
            k == n * (k / n) + k % n,
            i == k / n,
            j == k % n,
    ;
    if j + 1 < n {
        lemma_cell_position(n, i, j + 1);
        if k + 1 == n * n {
            lemma_cell_position(n, i, j);
            assert(i * n + n == (i + 1) * n);
            lemma_mul_inequality(i + 1, n, n);
        }
    } else {
        if i + 1 < n {
            lemma_cell_position(n, i + 1, 0);
            lemma_cell_position(n, i, j);
        } else {
            lemma_cell_position(n, i, j);
        }
    }
}

/// The corners of cell `c`.
pub open spec fn spec_corners(c: Cell) -> Quad {
    Quad {
        v0: Vertex { i: c.i, j: c.j },
        v1: Vertex { i: (c.i + 1) as usize, j: c.j },
        v2: Vertex { i: (c.i + 1) as usize, j: (c.j + 1) as usize },
        v3: Vertex { i: c.i, j: (c.j + 1) as usize },
    }
}

impl Cell {
    /// The four lattice vertices at the corners of this cell.
    pub fn corners(&self) -> (q: Quad)
        requires
            self.i < usize::MAX,
            self.j < usize::MAX,
        ensures
            q == spec_corners(*self),
            q.v0 == (Vertex { i: self.i, j: self.j }),
            q.v1 == (Vertex { i: (self.i + 1) as usize, j: self.j }),
            q.v2 == (Vertex { i: (self.i + 1) as usize, j: (self.j + 1) as usize }),
            q.v3 == (Vertex { i: self.i, j: (self.j + 1) as usize }),
    {
        Quad {
            v0: Vertex { i: self.i, j: self.j },
            v1: Vertex { i: self.i + 1, j: self.j },
            v2: Vertex { i: self.i + 1, j: self.j + 1 },
            v3: Vertex { i: self.i, j: self.j + 1 },
        }
    }
}

/// A cell's quad is the unit square whose lower corner is the cell's own lattice vertex
/// `(i, j)`, traversed one lattice step at a time: `+x`, then `+y`, then `-x`, then `-y`.
pub proof fn lemma_corners_enclose_cell(c: Cell)
    requires
        c.i < usize::MAX,
        c.j < usize::MAX,
    ensures
        spec_corners(c).v0.i == c.i && spec_corners(c).v0.j == c.j,
        spec_corners(c).v1.i == spec_corners(c).v0.i + 1 && spec_corners(c).v1.j == spec_corners(c).v0.j,
        spec_corners(c).v2.i == spec_corners(c).v1.i && spec_corners(c).v2.j == spec_corners(c).v1.j + 1,
        spec_corners(c).v3.i + 1 == spec_corners(c).v2.i && spec_corners(c).v3.j == spec_corners(c).v2.j,
        spec_corners(c).v0.i == spec_corners(c).v3.i && spec_corners(c).v0.j + 1 == spec_corners(c).v3.j,
{
}

/// The surface has no gaps: a cell and its neighbour along x share the edge `v1`-`v2` /
/// `v0`-`v3`, and a cell and its neighbour along y share the edge `v3`-`v2` / `v0`-`v1`.
pub proof fn lemma_neighbours_share_edges(i: usize, j: usize)
    requires
        i + 1 < usize::MAX,
        j + 1 < usize::MAX,
    ensures
        spec_corners(Cell { i, j }).v1 == spec_corners(Cell { i: (i + 1) as usize, j }).v0,
        spec_corners(Cell { i, j }).v2 == spec_corners(Cell { i: (i + 1) as usize, j }).v3,
        spec_corners(Cell { i, j }).v3 == spec_corners(Cell { i, j: (j + 1) as usize }).v0,
        spec_corners(Cell { i, j }).v2 == spec_corners(Cell { i, j: (j + 1) as usize }).v1,
{
}

} // verus!
