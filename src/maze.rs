//! The maze: its flattened wall grid and what makes it perfect.

use crate::grid::{DOWN, LEFT, Position, RIGHT, UP, col_delta, is_direction, is_open, opposite, row_delta, step_direction};
use vstd::prelude::*;

verus! {

/// Whether `p` lies on a grid of `rows` rows and `cols` columns.
pub open spec fn grid_in_bounds(rows: int, cols: int, p: Position) -> bool {
    0 <= p.row < rows && 0 <= p.col < cols
}

/// The row-major index of `p` on a grid of `cols` columns.
pub open spec fn grid_index(cols: int, p: Position) -> int {
    p.row * cols + p.col
}

/// The wall bitmask at `p` in a row-major grid; closed when there is no such cell.
pub open spec fn grid_state(cells: Seq<i8>, cols: int, p: Position) -> i8 {
    let i = grid_index(cols, p);
    if 0 <= i < cells.len() {
        cells[i]
    } else {
        0
    }
}

/// The position one step from `p` in direction `d`.
pub open spec fn neighbor(p: Position, d: i8) -> Position {
    Position { row: (p.row + row_delta(d)) as i32, col: (p.col + col_delta(d)) as i32 }
}

/// Every open wall has its matching open wall on the other side.
pub open spec fn grid_symmetric(cells: Seq<i8>, rows: int, cols: int) -> bool {
    forall|p: Position, d: i8|
        grid_in_bounds(rows, cols, p) && is_direction(d) && grid_in_bounds(
            rows,
            cols,
            #[trigger] neighbor(p, d),
        ) ==> (is_open(grid_state(cells, cols, p), d) == is_open(
            grid_state(cells, cols, neighbor(p, d)),
            opposite(d),
        ))
}

/// No open wall leads off the grid.
pub open spec fn grid_closed_border(cells: Seq<i8>, rows: int, cols: int) -> bool {
    forall|p: Position, d: i8|
        grid_in_bounds(rows, cols, p) && is_direction(d) && #[trigger] is_open(
            grid_state(cells, cols, p),
            d,
        ) ==> grid_in_bounds(rows, cols, neighbor(p, d))
}

/// Every cell holds only the four direction bits.
pub open spec fn grid_bits(cells: Seq<i8>) -> bool {
    forall|i: int| 0 <= i < cells.len() ==> 0 <= #[trigger] cells[i] <= 15
}


/// The top-left cell, where every maze starts.
pub open spec fn origin() -> Position {
    Position { row: 0, col: 0 }
}

/// A cell counts as reached once a wall of it is open; the origin is reached
/// from the outset.
pub open spec fn grid_reached(cells: Seq<i8>, cols: int, p: Position) -> bool {
    grid_state(cells, cols, p) != 0 || p == origin()
}

/// Every on-grid neighbor of `p` has been reached.
pub open spec fn grid_closed_at(cells: Seq<i8>, rows: int, cols: int, p: Position) -> bool {
    forall|d: i8|
        is_direction(d) && grid_in_bounds(rows, cols, #[trigger] neighbor(p, d)) ==> grid_reached(
            cells,
            cols,
            neighbor(p, d),
        )
}

/// `w` starts at the origin and each later element is one step, through an
/// open wall, from the element before it.
pub open spec fn grid_walk(cells: Seq<i8>, rows: int, cols: int, w: Seq<Position>) -> bool {
    &&& w.len() >= 1
    &&& w[0] == origin()
    &&& forall|i: int|
        1 <= i < w.len() ==> {
            let d = step_direction(w[i - 1], #[trigger] w[i]);
            &&& grid_in_bounds(rows, cols, w[i])
            &&& w[i] == neighbor(w[i - 1], d)
            &&& is_open(grid_state(cells, cols, w[i - 1]), d)
        }
}

/// Every cell of the grid is the end of some walk from the origin.
pub open spec fn grid_connected(cells: Seq<i8>, rows: int, cols: int) -> bool {
    forall|p: Position|
        grid_in_bounds(rows, cols, p) ==> exists|w: Seq<Position>|
            #[trigger] grid_walk(cells, rows, cols, w) && w.last() == p
}

/// The number of open walls of one cell.
pub open spec fn degree(x: i8) -> nat {
    (if is_open(x, UP) {
        1nat
    } else {
        0nat
    }) + (if is_open(x, RIGHT) {
        1nat
    } else {
        0nat
    }) + (if is_open(x, DOWN) {
        1nat
    } else {
        0nat
    }) + (if is_open(x, LEFT) {
        1nat
    } else {
        0nat
    })
}

/// The number of open walls over all cells; with symmetric walls, twice the
/// number of passages.
pub open spec fn total_degree(s: Seq<i8>) -> nat
    decreases s.len(),
{
    if s.len() == 0 {
        0
    } else {
        total_degree(s.drop_last()) + degree(s.last())
    }
}


/// A perfect rectangular maze. `cells` holds one wall bitmask per cell in
/// row-major order: the cell at (row, col) is `cells[row * num_columns + col]`.
pub struct PrefectRectangularMazeNoLoops {
    pub num_rows: i32,
    pub num_columns: i32,
    pub start: Position,
    pub end: Position,
    pub cells: Vec<i8>,
}

impl PrefectRectangularMazeNoLoops {
    pub open spec fn in_bounds(&self, p: Position) -> bool {
        0 <= p.row < self.num_rows && 0 <= p.col < self.num_columns
    }

    /// The flattened index of a position.
    pub open spec fn index_of(&self, p: Position) -> int {
        p.row * self.num_columns + p.col
    }

    /// The wall bitmask at a position; a position without a stored cell has
    /// all its walls closed.
    pub open spec fn state_at(&self, p: Position) -> i8 {
        grid_state(self.cells@, self.num_columns as int, p)
    }

    /// The number of passages: open walls come in matched pairs.
    pub open spec fn passage_count(&self) -> int {
        (total_degree(self.cells@) / 2) as int
    }

    /// A perfect maze: start at the top-left, end at the bottom-right, every
    /// wall open on both sides or on neither, no passage off the grid, every
    /// cell reachable from the start, and one passage fewer than cells, so
    /// that the passages form a spanning tree.
    pub open spec fn is_perfect(&self) -> bool {
        let (rows, cols) = (self.num_rows as int, self.num_columns as int);
        &&& rows >= 1
        &&& cols >= 1
        &&& self.start == origin()
        &&& self.end == (Position { row: (rows - 1) as i32, col: (cols - 1) as i32 })
        &&& self.cells@.len() == rows * cols
        &&& grid_bits(self.cells@)
        &&& grid_symmetric(self.cells@, rows, cols)
        &&& grid_closed_border(self.cells@, rows, cols)
        &&& grid_connected(self.cells@, rows, cols)
        &&& total_degree(self.cells@) == 2 * (rows * cols - 1)
    }

    /// The position that a flattened index stands for.
    pub open spec fn position_of(&self, idx: int) -> Position {
        let row = if idx < self.num_columns {
            0
        } else {
            idx / (self.num_columns as int)
        };
        Position { row: row as i32, col: (idx - row * self.num_columns) as i32 }
    }

    /// A maze of `num_rows` by `num_columns` cells from the top-left to the
    /// bottom-right cell: with the given wall bitmasks, or freshly carved
    /// when none are given.
    pub fn new(num_rows: i32, num_columns: i32, cells: Option<Vec<i8>>) -> (m: Self)
        requires
            num_rows >= 1,
            num_columns >= 1,
            num_rows as int * num_columns as int <= usize::MAX,
        ensures
            m.num_rows == num_rows,
            m.num_columns == num_columns,
            m.start == origin(),
            m.end == (Position { row: (num_rows - 1) as i32, col: (num_columns - 1) as i32 }),
            match cells {
                Some(c) => m.cells@ == c@,
                None => m.is_perfect(),
            },
    {
        match cells {
            Some(cells) => PrefectRectangularMazeNoLoops {
                num_rows,
                num_columns,
                start: Position { row: 0, col: 0 },
                end: Position { row: num_rows - 1, col: num_columns - 1 },
                cells,
            },
            None => crate::generate::generate_rectangular_maze(num_rows, num_columns),
        }
    }

    /// The wall bitmasks, row by row.
    pub fn cells(&self) -> (r: &Vec<i8>)
        ensures
            r@ == self.cells@,
    {
        &self.cells
    }

    /// The wall bitmask at a position.
    pub fn cell_state(&self, p: Position) -> (r: i8)
        ensures
            r == self.state_at(p),
    {
        proof {
            let (a, b) = (p.row as int, self.num_columns as int);
            assert(-0x4000_0000_0000_0000 <= a * b <= 0x4000_0000_0000_0000) by (nonlinear_arith)
                requires
                    -0x8000_0000 <= a < 0x8000_0000,
                    -0x8000_0000 <= b < 0x8000_0000,
            ;
        }
        let i: i64 = (p.row as i64) * (self.num_columns as i64) + (p.col as i64);
        if i >= 0 && (i as u64) < (self.cells.len() as u64) {
            self.cells[i as usize]
        } else {
            0
        }
    }

    /// The position of the cell at flattened index `idx`.
    pub fn cell_idx_to_position(&self, idx: &i32) -> (r: Position)
        requires
            self.num_columns >= 1,
        ensures
            r == self.position_of(*idx as int),
    {
        let row: i32 = if *idx < self.num_columns {
            0
        } else {
            *idx / self.num_columns
        };
        proof {
            let (i, c) = (*idx as int, self.num_columns as int);
            if i >= c {
                assert(0 <= (i / c) * c <= i) by (nonlinear_arith)
                    requires
                        i >= c >= 1,
                ;
            }
        }
        let col: i32 = *idx - row * self.num_columns;
        Position { row, col }
    }
}

} // verus!
