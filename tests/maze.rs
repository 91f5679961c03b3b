use maze_engine::check::{
    check_rectangular_maze_solution, error_message, CheckSolutionResult, SolutionError,
};
use maze_engine::grid::{
    col_offset, determine_move_direction, direction_at, direction_name, get_cell_wall_names,
    opposite_direction, row_offset, wall_open, Position, DOWN, LEFT, RIGHT, UP,
};
use maze_engine::generate::{
    generate_rectangular_maze, generate_rectangular_maze_with_orders, shuffle_directions,
};
use maze_engine::maze::PrefectRectangularMazeNoLoops;

fn pos(row: i32, col: i32) -> Position {
    Position { row, col }
}

/// A connected 2x2 maze: (0,0)-(0,1), (0,1)-(1,1), (1,1)-(1,0).
fn square_maze() -> PrefectRectangularMazeNoLoops {
    PrefectRectangularMazeNoLoops::new(2, 2, Some(vec![RIGHT, LEFT | DOWN, RIGHT, UP | LEFT]))
}

fn check(maze: &PrefectRectangularMazeNoLoops, path: Vec<Position>) -> CheckSolutionResult {
    let copy = PrefectRectangularMazeNoLoops::new(
        maze.num_rows,
        maze.num_columns,
        Some(maze.cells().clone()),
    );
    check_rectangular_maze_solution(copy, path)
}

fn neighbors(maze: &PrefectRectangularMazeNoLoops, p: Position) -> Vec<Position> {
    let mut out = Vec::new();
    let state = maze.cell_state(p);
    for d in [UP, RIGHT, DOWN, LEFT] {
        if state & d != 0 {
            out.push(pos(p.row + row_offset(d), p.col + col_offset(d)));
        }
    }
    out
}

/// Depth-first walk from the start through open walls, recording the path
/// used to reach each cell.
fn walks_from_start(maze: &PrefectRectangularMazeNoLoops) -> Vec<Option<Vec<Position>>> {
    let n = (maze.num_rows * maze.num_columns) as usize;
    let mut walks: Vec<Option<Vec<Position>>> = vec![None; n];
    let mut stack = vec![vec![pos(0, 0)]];
    let mut visits = 0;
    while let Some(walk) = stack.pop() {
        let p = *walk.last().unwrap();
        let i = (p.row * maze.num_columns + p.col) as usize;
        if walks[i].is_some() {
            continue;
        }
        visits += 1;
        walks[i] = Some(walk.clone());
        for q in neighbors(maze, p) {
            let mut next = walk.clone();
            next.push(q);
            stack.push(next);
        }
    }
    assert_eq!(visits, n);
    walks
}

#[test]
fn one_by_one_maze_single_cell_path_is_valid() {
    let maze = generate_rectangular_maze(1, 1);
    assert_eq!(maze.cells(), &vec![0]);
    assert_eq!(maze.start, maze.end);
    let r = check_rectangular_maze_solution(maze, vec![pos(0, 0)]);
    assert!(r.valid);
    assert_eq!(r.error, None);
    assert_eq!(r.error_message, None);
    assert_eq!(r.solution, vec![pos(0, 0)]);
    assert_eq!(r.last_position, Some(pos(0, 0)));
}

#[test]
fn two_by_two_path_along_passages_is_valid() {
    let r = check(&square_maze(), vec![pos(0, 0), pos(0, 1), pos(1, 1)]);
    assert!(r.valid);
    assert_eq!(r.error_message, None);
    assert_eq!(r.solution, vec![pos(0, 0), pos(0, 1), pos(1, 1)]);
}

#[test]
fn diagonal_jump_is_rejected() {
    let r = check(&square_maze(), vec![pos(0, 0), pos(1, 1)]);
    assert!(!r.valid);
    assert!(matches!(r.error, Some(SolutionError::DiagonalMove { .. })));
    assert_eq!(
        r.error_message.unwrap(),
        "The position at index (1) moving from (row: 0, col: 0) to (row: 1, col: 1) was a diagonal move, which is not allowed."
    );
    assert_eq!(r.solution, vec![pos(0, 0)]);
}

#[test]
fn repeated_position_is_rejected() {
    let r = check(&square_maze(), vec![pos(0, 0), pos(0, 0)]);
    assert!(!r.valid);
    assert!(matches!(r.error, Some(SolutionError::NoOpMove { .. })));
    assert_eq!(
        r.error_message.unwrap(),
        "No-move found at index (1) from (row: 0, col: 0) to (row: 0, col: 0)."
    );
}

#[test]
fn wrong_start_is_rejected() {
    let r = check(&square_maze(), vec![pos(0, 1), pos(1, 1)]);
    assert!(!r.valid);
    assert_eq!(r.error, Some(SolutionError::WrongStart { start: pos(0, 0) }));
    assert_eq!(
        r.error_message.unwrap(),
        "Start your solution at the starting cell (row: 0, col: 0)."
    );
    assert!(r.solution.is_empty());
    assert_eq!(r.last_position, None);
}

#[test]
fn wrong_end_is_rejected() {
    let r = check(&square_maze(), vec![pos(0, 0), pos(0, 1)]);
    assert!(!r.valid);
    assert_eq!(r.error, Some(SolutionError::WrongEnd { end: pos(1, 1) }));
    assert_eq!(
        r.error_message.unwrap(),
        "Complete your solution at the ending cell (row: 1, col: 1)."
    );
    assert_eq!(r.solution, vec![pos(0, 0), pos(0, 1)]);
    assert_eq!(r.last_position, Some(pos(0, 1)));
}

#[test]
fn wall_collision_is_rejected() {
    let r = check(&square_maze(), vec![pos(0, 0), pos(1, 0), pos(1, 1)]);
    assert!(!r.valid);
    assert_eq!(
        r.error,
        Some(SolutionError::WallCollision {
            index: 1,
            direction: DOWN,
            from: pos(0, 0),
            to: pos(1, 0),
            state: RIGHT,
        })
    );
    assert_eq!(
        r.error_message.unwrap(),
        "The position at index (1) moving (down) from (row: 0, col: 0) to (row: 1, col: 0) hit a wall. Cell at: (row: 0, col: 0) has walls: (up, down, left)"
    );
    assert_eq!(r.solution, vec![pos(0, 0)]);
}

#[test]
fn position_off_the_grid_is_rejected() {
    let r = check(&square_maze(), vec![pos(0, 0), pos(0, -1)]);
    assert!(!r.valid);
    assert_eq!(
        r.error,
        Some(SolutionError::OutOfBounds { index: 1, position: pos(0, -1) })
    );
    assert_eq!(
        r.error_message.unwrap(),
        "The position at index (1) (row: 0, col: -1) is not on the maze."
    );
    let r = check(&square_maze(), vec![pos(0, 0), pos(0, 1), pos(0, 2)]);
    assert!(matches!(r.error, Some(SolutionError::OutOfBounds { index: 2, .. })));
}

#[test]
fn empty_path_is_rejected() {
    let r = check(&square_maze(), vec![]);
    assert!(!r.valid);
    assert_eq!(r.error, Some(SolutionError::WrongStart { start: pos(0, 0) }));
    assert!(r.solution.is_empty());
}

#[test]
fn processing_stops_at_first_violation() {
    let r = check(
        &square_maze(),
        vec![pos(0, 0), pos(0, 1), pos(0, 1), pos(5, 5), pos(1, 1)],
    );
    assert!(matches!(r.error, Some(SolutionError::NoOpMove { index: 2, .. })));
    assert_eq!(r.solution, vec![pos(0, 0), pos(0, 1)]);
}

#[test]
fn validating_twice_gives_the_same_verdict() {
    let maze = square_maze();
    for path in [
        vec![pos(0, 0), pos(0, 1), pos(1, 1)],
        vec![pos(0, 0), pos(1, 0)],
        vec![pos(1, 1)],
    ] {
        let a = check(&maze, path.clone());
        let b = check(&maze, path);
        assert_eq!(a.valid, b.valid);
        assert_eq!(a.error, b.error);
        assert_eq!(a.error_message, b.error_message);
        assert_eq!(a.solution, b.solution);
        assert_eq!(a.last_position, b.last_position);
    }
}

#[test]
fn generated_maze_is_a_spanning_tree() {
    for (rows, cols) in [(1, 1), (1, 6), (5, 1), (2, 2), (7, 9), (20, 13)] {
        let maze = generate_rectangular_maze(rows, cols);
        assert_eq!(maze.start, pos(0, 0));
        assert_eq!(maze.end, pos(rows - 1, cols - 1));
        assert_eq!(maze.cells().len(), (rows * cols) as usize);
        let open_walls: u32 = maze.cells().iter().map(|c| (*c as u8).count_ones()).sum();
        assert_eq!(open_walls, 2 * (rows * cols - 1) as u32);
        walks_from_start(&maze);
    }
}

#[test]
fn generated_maze_walls_are_symmetric() {
    let maze = generate_rectangular_maze(9, 11);
    for row in 0..9 {
        for col in 0..11 {
            let state = maze.cell_state(pos(row, col));
            assert!((0..=15).contains(&state));
            for d in [UP, RIGHT, DOWN, LEFT] {
                let (r, c) = (row + row_offset(d), col + col_offset(d));
                if r < 0 || r >= 9 || c < 0 || c >= 11 {
                    assert!(!wall_open(state, d));
                } else {
                    let other = maze.cell_state(pos(r, c));
                    assert_eq!(wall_open(state, d), wall_open(other, opposite_direction(d)));
                }
            }
        }
    }
}

#[test]
fn walks_through_generated_maze_are_accepted() {
    let maze = generate_rectangular_maze(6, 8);
    let walks = walks_from_start(&maze);
    for walk in walks.into_iter().map(|w| w.unwrap()) {
        let last = *walk.last().unwrap();
        let r = check(&maze, walk.clone());
        assert_eq!(r.solution, walk);
        if last == maze.end {
            assert!(r.valid);
        } else {
            assert_eq!(r.error, Some(SolutionError::WrongEnd { end: maze.end }));
        }
    }
}

#[test]
fn new_without_cells_generates_and_with_cells_keeps_them() {
    let maze = PrefectRectangularMazeNoLoops::new(3, 4, None);
    assert_eq!(maze.num_rows, 3);
    assert_eq!(maze.num_columns, 4);
    assert_eq!(maze.end, pos(2, 3));
    walks_from_start(&maze);
    let kept = PrefectRectangularMazeNoLoops::new(1, 3, Some(vec![RIGHT, LEFT | RIGHT, LEFT]));
    assert_eq!(kept.cells(), &vec![RIGHT, LEFT | RIGHT, LEFT]);
    assert_eq!(kept.end, pos(0, 2));
}

#[test]
fn check_solution_by_flat_indices() {
    let maze = square_maze();
    assert_eq!(maze.check_solution(vec![0, 1, 3]), None);
    assert_eq!(
        maze.check_solution(vec![0, 3]).unwrap(),
        "The position at index (1) moving from (row: 0, col: 0) to (row: 1, col: 1) was a diagonal move, which is not allowed."
    );
    assert_eq!(
        maze.check_solution(vec![0, 1, 5]).unwrap(),
        "The position at index (2) (row: 2, col: 1) is not on the maze."
    );
    assert_eq!(
        maze.check_solution(vec![-1]).unwrap(),
        "Start your solution at the starting cell (row: 0, col: 0)."
    );
    assert_eq!(
        maze.check_solution(vec![0, 1]).unwrap(),
        "Complete your solution at the ending cell (row: 1, col: 1)."
    );
}

#[test]
fn flat_index_to_position() {
    let maze = PrefectRectangularMazeNoLoops::new(3, 3, Some(vec![0; 9]));
    assert_eq!(maze.cell_idx_to_position(&0), pos(0, 0));
    assert_eq!(maze.cell_idx_to_position(&2), pos(0, 2));
    assert_eq!(maze.cell_idx_to_position(&3), pos(1, 0));
    assert_eq!(maze.cell_idx_to_position(&7), pos(2, 1));
}

#[test]
fn cell_state_outside_stored_cells_is_closed() {
    let maze = PrefectRectangularMazeNoLoops::new(2, 2, Some(vec![RIGHT]));
    assert_eq!(maze.cell_state(pos(0, 0)), RIGHT);
    assert_eq!(maze.cell_state(pos(1, 1)), 0);
    assert_eq!(maze.cell_state(pos(-3, 0)), 0);
}

#[test]
fn cell_wall_names_list_closed_walls() {
    assert_eq!(get_cell_wall_names(&0), "up, right, down, left");
    assert_eq!(get_cell_wall_names(&15), "");
    assert_eq!(get_cell_wall_names(&(UP | DOWN)), "right, left");
    assert_eq!(get_cell_wall_names(&(RIGHT | DOWN | LEFT)), "up");
}

#[test]
fn move_direction_follows_changed_coordinate() {
    let from = pos(3, 3);
    let up = determine_move_direction(&from, &2, &3);
    assert_eq!((up.value, up.name.as_str()), (UP, "up"));
    let down = determine_move_direction(&from, &4, &3);
    assert_eq!((down.value, down.name.as_str()), (DOWN, "down"));
    let left = determine_move_direction(&from, &3, &2);
    assert_eq!((left.value, left.name.as_str()), (LEFT, "left"));
    let right = determine_move_direction(&from, &3, &4);
    assert_eq!((right.value, right.name.as_str()), (RIGHT, "right"));
}

#[test]
fn direction_tables() {
    assert_eq!([UP, RIGHT, DOWN, LEFT], [1, 2, 4, 8]);
    assert_eq!(
        (0..4).map(direction_at).collect::<Vec<_>>(),
        vec![UP, RIGHT, DOWN, LEFT]
    );
    assert_eq!(opposite_direction(UP), DOWN);
    assert_eq!(opposite_direction(DOWN), UP);
    assert_eq!(opposite_direction(LEFT), RIGHT);
    assert_eq!(opposite_direction(RIGHT), LEFT);
    assert_eq!((row_offset(UP), col_offset(UP)), (-1, 0));
    assert_eq!((row_offset(DOWN), col_offset(DOWN)), (1, 0));
    assert_eq!((row_offset(LEFT), col_offset(LEFT)), (0, -1));
    assert_eq!((row_offset(RIGHT), col_offset(RIGHT)), (0, 1));
    assert_eq!(direction_name(LEFT), "left");
    assert!(wall_open(UP | LEFT, LEFT));
    assert!(!wall_open(UP | LEFT, RIGHT));
}

#[test]
fn shuffled_directions_are_a_permutation() {
    for _ in 0..50 {
        let mut d = shuffle_directions();
        assert_eq!(d.len(), 4);
        d.sort();
        assert_eq!(d, vec![UP, RIGHT, DOWN, LEFT]);
    }
}

#[test]
fn error_messages_use_decimal_numbers() {
    let e = SolutionError::OutOfBounds { index: 1234, position: pos(-56, 789) };
    assert_eq!(
        error_message(&e),
        "The position at index (1234) (row: -56, col: 789) is not on the maze."
    );
}

#[test]
fn generation_with_fixed_orders_is_exact() {
    let orders = vec![vec![UP, RIGHT, DOWN, LEFT]];
    let maze = generate_rectangular_maze_with_orders(2, 2, &orders);
    assert_eq!(maze.cells(), &vec![RIGHT | DOWN, LEFT, UP | RIGHT, LEFT]);
    let orders = vec![vec![LEFT, DOWN, RIGHT, UP], vec![UP, LEFT, RIGHT, DOWN]];
    let maze = generate_rectangular_maze_with_orders(1, 3, &orders);
    assert_eq!(maze.cells(), &vec![RIGHT, LEFT | RIGHT, LEFT]);
    let r = check(&maze, vec![pos(0, 0), pos(0, 1), pos(0, 2)]);
    assert!(r.valid);
}

#[test]
fn generation_with_any_orders_is_a_spanning_tree() {
    let orders = vec![
        vec![DOWN, LEFT, UP, RIGHT],
        vec![RIGHT, UP, LEFT, DOWN],
        vec![LEFT, RIGHT, DOWN, UP],
    ];
    let maze = generate_rectangular_maze_with_orders(8, 5, &orders);
    let open_walls: u32 = maze.cells().iter().map(|c| (*c as u8).count_ones()).sum();
    assert_eq!(open_walls, 2 * (8 * 5 - 1));
    walks_from_start(&maze);
}
