//! Typed rectangular grids of cells.
//!
//! A grid is a vector of rows of small integers; each value encodes one of
//! four cell kinds: 0 empty, 1 susceptible, 2 blocker, 3 infected.
use vstd::prelude::*;

verus! {

/// An inert cell: blocks nothing, never changes.
pub const EMPTY: u32 = 0;
/// A cell that can become infected.
pub const SUSCEPTIBLE: u32 = 1;
/// A cell the expansion passes through without converting or labeling it.
pub const BLOCKER: u32 = 2;
/// An expansion source.
pub const INFECTED: u32 = 3;

/// Why a query was rejected before the engine ran.
#[derive(Clone, Copy, Debug, PartialEq, Eq, Structural)]
pub enum ValidationError {
    EmptyGrid,
    JaggedGrid,
    CellOutOfRange,
    MalformedCoordinate,
    CoordinateOutOfBounds,
}

/// The mathematical content of a grid held as a vector of rows.
pub open spec fn grid_view(rows: Seq<Vec<u32>>) -> Seq<Seq<u32>> {
    Seq::new(rows.len(), |i: int| rows[i]@)
}

/// The mathematical content of a tick map held as a vector of rows.
pub open spec fn tick_view(rows: Seq<Vec<i32>>) -> Seq<Seq<i32>> {
    Seq::new(rows.len(), |i: int| rows[i]@)
}

/// A rectangular grid: at least one row, every row of the same length.
pub open spec fn is_rect(g: Seq<Seq<u32>>) -> bool {
    &&& g.len() >= 1
    &&& forall|i: int| 0 <= i < g.len() ==> (#[trigger] g[i]).len() == g[0].len()
}

/// Every cell value encodes one of the four kinds.
pub open spec fn cells_in_range(g: Seq<Seq<u32>>) -> bool {
    forall|i: int, j: int|
        0 <= i < g.len() && 0 <= j < g[i].len() ==> #[trigger] g[i][j] <= INFECTED
}

/// A grid the engine accepts: rectangular, at least one row and one
/// column, every cell one of the four kinds.
pub open spec fn valid_grid(g: Seq<Seq<u32>>) -> bool {
    &&& is_rect(g)
    &&& g[0].len() >= 1
    &&& cells_in_range(g)
}

/// What validation returns on each input, first failure first: an empty
/// grid, then a jagged one, then an out-of-range cell value.
pub open spec fn validate_grid_spec(g: Seq<Seq<u32>>) -> Result<(), ValidationError> {
    if g.len() == 0 || g[0].len() == 0 {
        Err(ValidationError::EmptyGrid)
    } else if !is_rect(g) {
        Err(ValidationError::JaggedGrid)
    } else if !cells_in_range(g) {
        Err(ValidationError::CellOutOfRange)
    } else {
        Ok(())
    }
}

/// Checks that a raw grid is non-empty, rectangular, and holds only the
/// four cell kind codes.
pub fn validate_grid(grid: &Vec<Vec<u32>>) -> (r: Result<(), ValidationError>)
    ensures
        r == validate_grid_spec(grid_view(grid@)),
        r is Ok <==> valid_grid(grid_view(grid@)),
{
    let ghost g = grid_view(grid@);
    let m = grid.len();
    if m == 0 {
        return Err(ValidationError::EmptyGrid);
    }
    let n = grid[0].len();
    assert(g[0].len() == n);
    if n == 0 {
        return Err(ValidationError::EmptyGrid);
    }
    let mut i: usize = 0;
    while i < m
        invariant
            i <= m,
            1 <= m,
            1 <= n,
            m == g.len(),
            n == g[0].len(),
            g == grid_view(grid@),
            forall|r: int| 0 <= r < i ==> (#[trigger] g[r]).len() == n,
        decreases m - i,
    {
        if grid[i].len() != n {
            assert(g[i as int].len() != n);
            return Err(ValidationError::JaggedGrid);
        }
        assert(g[i as int].len() == n);
        i = i + 1;
    }
    assert(is_rect(g));
    let mut i: usize = 0;
    while i < m
        invariant
            i <= m,
            1 <= m,
            1 <= n,
            m == g.len(),
            n == g[0].len(),
            g == grid_view(grid@),
            is_rect(g),
            forall|r: int, c: int|
                0 <= r < i && 0 <= c < g[r].len() ==> #[trigger] g[r][c] <= INFECTED,
        decreases m - i,
    {
        let mut j: usize = 0;
        while j < n
            invariant
                i < m,
                j <= n,
                1 <= m,
                1 <= n,
                m == g.len(),
                n == g[0].len(),
                g == grid_view(grid@),
                is_rect(g),
                forall|r: int, c: int|
                    0 <= r < i && 0 <= c < g[r].len() ==> #[trigger] g[r][c] <= INFECTED,
                forall|c: int| 0 <= c < j ==> #[trigger] g[i as int][c] <= INFECTED,
            decreases n - j,
        {
            assert(g[i as int] == grid@[i as int]@);
            assert(g[i as int].len() == n);
            if grid[i][j] > 3 {
                assert(g[i as int][j as int] > INFECTED);
                return Err(ValidationError::CellOutOfRange);
            }
            assert(g[i as int][j as int] <= INFECTED);
            j = j + 1;
        }
        i = i + 1;
    }
    assert(cells_in_range(g));
    Ok(())
}

/// The in-bounds 4-neighborhood of a coordinate, in the fixed order up,
/// down, left, right, inside an `m` by `n` grid.
pub open spec fn neighbors_spec(m: int, n: int, i: int, j: int) -> Seq<(usize, usize)> {
    let up = if i > 0 {
        seq![((i - 1) as usize, j as usize)]
    } else {
        Seq::empty()
    };
    let down = if i + 1 < m {
        seq![((i + 1) as usize, j as usize)]
    } else {
        Seq::empty()
    };
    let left = if j > 0 {
        seq![(i as usize, (j - 1) as usize)]
    } else {
        Seq::empty()
    };
    let right = if j + 1 < n {
        seq![(i as usize, (j + 1) as usize)]
    } else {
        Seq::empty()
    };
    up + down + left + right
}

/// Lists the in-bounds neighbors of `(i, j)` in the order up, down, left,
/// right; out-of-grid directions are silently skipped.
pub fn neighbors(m: usize, n: usize, i: usize, j: usize) -> (r: Vec<(usize, usize)>)
    requires
        i < m,
        j < n,
    ensures
        r@ == neighbors_spec(m as int, n as int, i as int, j as int),
{
    let mut r: Vec<(usize, usize)> = Vec::new();
    if i > 0 {
        r.push((i - 1, j));
    }
    if i + 1 < m {
        r.push((i + 1, j));
    }
    if j > 0 {
        r.push((i, j - 1));
    }
    if j + 1 < n {
        r.push((i, j + 1));
    }
    proof {
        assert(r@ =~= neighbors_spec(m as int, n as int, i as int, j as int));
    }
    r
}

} // verus!
