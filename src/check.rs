//! Validation of a candidate solution path against a maze's walls.

use crate::grid::{
    Position, decimal, decimal_of, determine_move_direction, get_cell_wall_names, is_open,
    name_of, step_direction, wall_names, direction_name,
};
use crate::maze::{PrefectRectangularMazeNoLoops, grid_in_bounds, grid_walk, neighbor, origin};
use vstd::prelude::*;

verus! {

/// Why a solution path was rejected. `index` is the position of the
/// offending element in the path.
#[derive(Clone, Copy, Debug, PartialEq, Eq, Structural)]
pub enum SolutionError {
    WrongStart { start: Position },
    OutOfBounds { index: usize, position: Position },
    DiagonalMove { index: usize, from: Position, to: Position },
    NoOpMove { index: usize, from: Position, to: Position },
    WallCollision { index: usize, direction: i8, from: Position, to: Position, state: i8 },
    WrongEnd { end: Position },
}

/// The verdict on a solution path.
pub struct CheckSolutionResult {
    /// The last accepted position, if any.
    pub last_position: Option<Position>,
    /// The first violation found, if any.
    pub error: Option<SolutionError>,
    /// A plain-language description of `error`.
    pub error_message: Option<String>,
    /// The prefix of the path accepted before the first violation.
    pub solution: Vec<Position>,
    pub valid: bool,
}

pub open spec fn abs_diff(a: i32, b: i32) -> int {
    if a >= b {
        a - b
    } else {
        b - a
    }
}

/// The Manhattan distance between two positions.
pub open spec fn manhattan(a: Position, b: Position) -> int {
    abs_diff(a.row, b.row) + abs_diff(a.col, b.col)
}

/// The violation, if any, of stepping from `last` to `p` as path element `idx`.
pub open spec fn step_error(
    m: PrefectRectangularMazeNoLoops,
    idx: int,
    last: Position,
    p: Position,
) -> Option<SolutionError> {
    if !m.in_bounds(p) {
        Some(SolutionError::OutOfBounds { index: idx as usize, position: p })
    } else if manhattan(last, p) > 1 {
        Some(SolutionError::DiagonalMove { index: idx as usize, from: last, to: p })
    } else if manhattan(last, p) == 0 {
        Some(SolutionError::NoOpMove { index: idx as usize, from: last, to: p })
    } else if !is_open(m.state_at(last), step_direction(last, p)) {
        Some(
            SolutionError::WallCollision {
                index: idx as usize,
                direction: step_direction(last, p),
                from: last,
                to: p,
                state: m.state_at(last),
            },
        )
    } else {
        None
    }
}

/// The first violation among the first `k` elements of `path`.
pub open spec fn first_error(
    m: PrefectRectangularMazeNoLoops,
    path: Seq<Position>,
    k: int,
) -> Option<SolutionError>
    decreases k,
{
    if k <= 0 {
        None
    } else if k == 1 {
        if path[0] != m.start {
            Some(SolutionError::WrongStart { start: m.start })
        } else {
            None
        }
    } else {
        match first_error(m, path, k - 1) {
            Some(e) => Some(e),
            None => step_error(m, k - 1, path[k - 2], path[k - 1]),
        }
    }
}

/// How many of the first `k` elements of `path` are accepted.
pub open spec fn accepted_count(m: PrefectRectangularMazeNoLoops, path: Seq<Position>, k: int) -> int
    decreases k,
{
    if k <= 0 {
        0
    } else if first_error(m, path, k) is None {
        k
    } else {
        accepted_count(m, path, k - 1)
    }
}

/// The verdict on a whole path: the first violation, or none when the path is
/// a solution.
pub open spec fn solution_error(m: PrefectRectangularMazeNoLoops, path: Seq<Position>) -> Option<
    SolutionError,
> {
    if path.len() == 0 {
        Some(SolutionError::WrongStart { start: m.start })
    } else {
        match first_error(m, path, path.len() as int) {
            Some(e) => Some(e),
            None => if path.last() != m.end {
                Some(SolutionError::WrongEnd { end: m.end })
            } else {
                None
            },
        }
    }
}

/// The prefix of a path that is accepted before its first violation.
pub open spec fn accepted_path(m: PrefectRectangularMazeNoLoops, path: Seq<Position>) -> Seq<
    Position,
> {
    path.subrange(0, accepted_count(m, path, path.len() as int))
}

pub open spec fn position_text(p: Position) -> Seq<char> {
    "(row: "@ + decimal_of(p.row as int) + ", col: "@ + decimal_of(p.col as int) + ")"@
}

pub open spec fn index_text(index: usize) -> Seq<char> {
    "The position at index ("@ + decimal_of(index as int) + ")"@
}

/// The plain-language description of a violation.
pub open spec fn error_text(e: SolutionError) -> Seq<char> {
    match e {
        SolutionError::WrongStart { start } => "Start your solution at the starting cell "@
            + position_text(start) + "."@,
        SolutionError::OutOfBounds { index, position } => index_text(index) + " "@
            + position_text(position) + " is not on the maze."@,
        SolutionError::DiagonalMove { index, from, to } => index_text(index) + " moving from "@
            + position_text(from) + " to "@ + position_text(to)
            + " was a diagonal move, which is not allowed."@,
        SolutionError::NoOpMove { index, from, to } => "No-move found at index ("@ + decimal_of(
            index as int,
        ) + ") from "@ + position_text(from) + " to "@ + position_text(to) + "."@,
        SolutionError::WallCollision { index, direction, from, to, state } => index_text(index)
            + " moving ("@ + name_of(direction) + ") from "@ + position_text(from) + " to "@
            + position_text(to) + " hit a wall. Cell at: "@ + position_text(from)
            + " has walls: ("@ + wall_names(state) + ")"@,
        SolutionError::WrongEnd { end } => "Complete your solution at the ending cell "@
            + position_text(end) + "."@,
    }
}

fn position_string(p: Position) -> (r: String)
    ensures
        r@ == position_text(p),
{
    let mut s = String::from_str("(row: ");
    s.append(decimal(p.row as i128).as_str());
    s.append(", col: ");
    s.append(decimal(p.col as i128).as_str());
    s.append(")");
    s
}

fn index_string(index: usize) -> (r: String)
    ensures
        r@ == index_text(index),
{
    let mut s = String::from_str("The position at index (");
    s.append(decimal(index as i128).as_str());
    s.append(")");
    s
}

/// The plain-language description of a violation.
pub fn error_message(e: &SolutionError) -> (r: String)
    ensures
        r@ == error_text(*e),
{
    match e {
        SolutionError::WrongStart { start } => {
            let mut s = String::from_str("Start your solution at the starting cell ");
            s.append(position_string(*start).as_str());
            s.append(".");
            s
        },
        SolutionError::OutOfBounds { index, position } => {
            let mut s = index_string(*index);
            s.append(" ");
            s.append(position_string(*position).as_str());
            s.append(" is not on the maze.");
            s
        },
        SolutionError::DiagonalMove { index, from, to } => {
            let mut s = index_string(*index);
            s.append(" moving from ");
            s.append(position_string(*from).as_str());
            s.append(" to ");
            s.append(position_string(*to).as_str());
            s.append(" was a diagonal move, which is not allowed.");
            s
        },
        SolutionError::NoOpMove { index, from, to } => {
            let mut s = String::from_str("No-move found at index (");
            s.append(decimal(*index as i128).as_str());
            s.append(") from ");
            s.append(position_string(*from).as_str());
            s.append(" to ");
            s.append(position_string(*to).as_str());
            s.append(".");
            s
        },
        SolutionError::WallCollision { index, direction, from, to, state } => {
            let mut s = index_string(*index);
            s.append(" moving (");
            s.append(direction_name(*direction).as_str());
            s.append(") from ");
            s.append(position_string(*from).as_str());
            s.append(" to ");
            s.append(position_string(*to).as_str());
            s.append(" hit a wall. Cell at: ");
            s.append(position_string(*from).as_str());
            s.append(" has walls: (");
            s.append(get_cell_wall_names(state).as_str());
            s.append(")");
            s
        },
        SolutionError::WrongEnd { end } => {
            let mut s = String::from_str("Complete your solution at the ending cell ");
            s.append(position_string(*end).as_str());
            s.append(".");
            s
        },
    }
}

fn abs_difference(a: i32, b: i32) -> (r: i64)
    ensures
        r == abs_diff(a, b),
{
    if a >= b {
        a as i64 - b as i64
    } else {
        b as i64 - a as i64
    }
}

/// Validates `solution` against `maze`: the path must start at `maze.start`,
/// stay on the grid, move one cell at a time through open walls, and end at
/// `maze.end`. Processing stops at the first violation.
pub fn check_rectangular_maze_solution(
    maze: PrefectRectangularMazeNoLoops,
    solution: Vec<Position>,
) -> (r: CheckSolutionResult)
    ensures
        is_verdict(maze, solution@, r),
{
    check_path(&maze, &solution)
}

/// `r` is the verdict on `path` in `m`: its error, message, accepted prefix
/// and last accepted position are those the rules give.
pub open spec fn is_verdict(
    m: PrefectRectangularMazeNoLoops,
    path: Seq<Position>,
    r: CheckSolutionResult,
) -> bool {
    &&& r.error == solution_error(m, path)
    &&& r.valid == (r.error is None)
    &&& r.error_message is Some == r.error is Some
    &&& r.error is Some ==> r.error_message->0@ == error_text(r.error->0)
    &&& r.solution@ == accepted_path(m, path)
    &&& r.last_position == (if r.solution@.len() == 0 {
        None::<Position>
    } else {
        Some(r.solution@.last())
    })
}

fn check_path(maze: &PrefectRectangularMazeNoLoops, solution: &Vec<Position>) -> (r:
    CheckSolutionResult)
    ensures
        is_verdict(*maze, solution@, r),
{
    let ghost path = solution@;
    let ghost m = *maze;
    let mut error: Option<SolutionError> = None;
    let mut accepted: Vec<Position> = Vec::new();
    let mut last_position: Option<Position> = None;
    let mut idx: usize = 0;
    while idx < solution.len()
        invariant
            path == solution@,
            m == *maze,
            idx <= path.len(),
            error == first_error(m, path, idx as int),
            0 <= accepted_count(m, path, idx as int) <= idx,
            accepted@ == path.subrange(0, accepted_count(m, path, idx as int)),
            error is None ==> accepted_count(m, path, idx as int) == idx,
            last_position == (if accepted@.len() == 0 {
                None::<Position>
            } else {
                Some(accepted@.last())
            }),
        decreases path.len() - idx,
    {
        let position = solution[idx];
        if error.is_none() {
            match last_position {
                None => {
                    if position.row != maze.start.row || position.col != maze.start.col {
                        error = Some(SolutionError::WrongStart { start: maze.start });
                    } else {
                        accepted.push(position);
                        last_position = Some(position);
                    }
                },
                Some(last) => {
                    let delta = abs_difference(last.row, position.row) + abs_difference(
                        last.col,
                        position.col,
                    );
                    if position.row < 0 || position.row >= maze.num_rows || position.col < 0
                        || position.col >= maze.num_columns {
                        error = Some(SolutionError::OutOfBounds { index: idx, position });
                    } else if delta > 1 {
                        error = Some(
                            SolutionError::DiagonalMove { index: idx, from: last, to: position },
                        );
                    } else if delta == 0 {
                        error = Some(
                            SolutionError::NoOpMove { index: idx, from: last, to: position },
                        );
                    } else {
                        let direction = determine_move_direction(
                            &last,
                            &position.row,
                            &position.col,
                        );
                        let state = maze.cell_state(last);
                        if state & direction.value == 0 {
                            error = Some(
                                SolutionError::WallCollision {
                                    index: idx,
                                    direction: direction.value,
                                    from: last,
                                    to: position,
                                    state,
                                },
                            );
                        } else {
                            accepted.push(position);
                            last_position = Some(position);
                        }
                    }
                },
            }
        }
        proof {
            assert(path.subrange(0, idx + 1) =~= path.subrange(0, idx as int).push(path[idx as int]));
        }
        idx = idx + 1;
    }
    if error.is_none() {
        match last_position {
            None => {
                error = Some(SolutionError::WrongStart { start: maze.start });
            },
            Some(last) => {
                if last.row != maze.end.row || last.col != maze.end.col {
                    error = Some(SolutionError::WrongEnd { end: maze.end });
                }
            },
        }
    }
    assert(path.subrange(0, accepted_count(m, path, path.len() as int)) == accepted@);
    let error_message = match &error {
        Some(e) => Some(error_message(e)),
        None => None,
    };
    CheckSolutionResult {
        last_position,
        error,
        error_message,
        solution: accepted,
        valid: error.is_none(),
    }
}

impl PrefectRectangularMazeNoLoops {
    /// The positions that a path of flattened cell indices stands for.
    pub open spec fn positions_of(&self, solution: Seq<i32>) -> Seq<Position> {
        solution.map_values(|i: i32| self.position_of(i as int))
    }

    /// Validates a path given as flattened cell indices; `None` when it is a
    /// solution, else the description of its first violation.
    pub fn check_solution(&self, solution: Vec<i32>) -> (r: Option<String>)
        requires
            self.num_columns >= 1,
        ensures
            r is Some == solution_error(*self, self.positions_of(solution@)) is Some,
            r is Some ==> r->0@ == error_text(
                solution_error(*self, self.positions_of(solution@))->0,
            ),
    {
        let mut path: Vec<Position> = Vec::new();
        let mut i: usize = 0;
        while i < solution.len()
            invariant
                self.num_columns >= 1,
                i <= solution@.len(),
                path@ == self.positions_of(solution@).subrange(0, i as int),
            decreases solution@.len() - i,
        {
            let p = self.cell_idx_to_position(&solution[i]);
            path.push(p);
            i = i + 1;
            assert(path@ =~= self.positions_of(solution@).subrange(0, i as int));
        }
        assert(path@ =~= self.positions_of(solution@));
        let result = check_path(self, &path);
        result.error_message
    }
}

/// A walk from the start through open walls is accepted step by step by the
/// validator: nothing in it is rejected, the whole walk is the accepted
/// prefix, and the only possible complaint is that it ends elsewhere than at
/// the end cell.
pub proof fn lemma_walk_accepted(m: PrefectRectangularMazeNoLoops, w: Seq<Position>)
    requires
        m.start == origin(),
        grid_walk(m.cells@, m.num_rows as int, m.num_columns as int, w),
    ensures
        first_error(m, w, w.len() as int) is None,
        accepted_path(m, w) == w,
        solution_error(m, w) == (if w.last() == m.end {
            None::<SolutionError>
        } else {
            Some(SolutionError::WrongEnd { end: m.end })
        }),
{
    lemma_walk_prefix_accepted(m, w, w.len() as int);
    assert(w.subrange(0, w.len() as int) =~= w);
}

proof fn lemma_walk_prefix_accepted(m: PrefectRectangularMazeNoLoops, w: Seq<Position>, k: int)
    requires
        m.start == origin(),
        grid_walk(m.cells@, m.num_rows as int, m.num_columns as int, w),
        0 <= k <= w.len(),
    ensures
        first_error(m, w, k) is None,
        accepted_count(m, w, k) == k,
    decreases k,
{
    if k > 1 {
        lemma_walk_prefix_accepted(m, w, k - 1);
        let (a, b) = (w[k - 2], w[k - 1]);
        let d = step_direction(a, b);
        assert(b == neighbor(a, d) && is_open(m.state_at(a), d) && m.in_bounds(b));
        assert(manhattan(a, b) == 1);
    }
}

/// Every perfect maze has a solution that the validator accepts.
pub proof fn lemma_perfect_maze_solvable(m: PrefectRectangularMazeNoLoops)
    requires
        m.is_perfect(),
    ensures
        exists|w: Seq<Position>| solution_error(m, w) is None,
{
    assert(grid_in_bounds(m.num_rows as int, m.num_columns as int, m.end));
    let w = choose|w: Seq<Position>|
        #[trigger] grid_walk(m.cells@, m.num_rows as int, m.num_columns as int, w) && w.last()
            == m.end;
    lemma_walk_accepted(m, w);
    assert(solution_error(m, w) is None);
}

/// A perfect maze of R by C cells has exactly R * C - 1 passages, each
/// counted once, and each cell is reached by a walk from the start.
pub proof fn lemma_perfect_maze_spanning_tree(m: PrefectRectangularMazeNoLoops)
    requires
        m.is_perfect(),
    ensures
        m.passage_count() == m.num_rows * m.num_columns - 1,
        forall|p: Position|
            m.in_bounds(p) ==> exists|w: Seq<Position>|
                #[trigger] grid_walk(m.cells@, m.num_rows as int, m.num_columns as int, w)
                    && w.last() == p,
{
    assert forall|p: Position| m.in_bounds(p) implies exists|w: Seq<Position>|
        #[trigger] grid_walk(m.cells@, m.num_rows as int, m.num_columns as int, w) && w.last()
            == p by {
        assert(grid_in_bounds(m.num_rows as int, m.num_columns as int, p));
    }
}

/// Validating one path against one maze twice gives the same verdict.
pub proof fn lemma_validation_deterministic(
    m: PrefectRectangularMazeNoLoops,
    path: Seq<Position>,
    r1: CheckSolutionResult,
    r2: CheckSolutionResult,
)
    requires
        is_verdict(m, path, r1),
        is_verdict(m, path, r2),
    ensures
        r1.valid == r2.valid,
        r1.error == r2.error,
        r1.solution@ == r2.solution@,
        r1.last_position == r2.last_position,
        r1.error_message is Some == r2.error_message is Some,
        r1.error_message is Some ==> r1.error_message->0@ == r2.error_message->0@,
{
}

} // verus!
