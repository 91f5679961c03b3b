//! Directions, positions and the wall bitmask of a cell.

use vstd::prelude::*;

verus! {

/// Bit of a cell that is set when its upper wall is open.
pub const UP: i8 = 1;

/// Bit of a cell that is set when its right wall is open.
pub const RIGHT: i8 = 2;

/// Bit of a cell that is set when its lower wall is open.
pub const DOWN: i8 = 4;

/// Bit of a cell that is set when its left wall is open.
pub const LEFT: i8 = 8;

/// A cell that no carving has touched yet: all four walls closed.
pub const CELL_UNEXPLORED: i8 = 0;

/// A (row, column) coordinate; rows grow downward, columns rightward.
#[derive(Clone, Copy, Debug, PartialEq, Eq, Structural)]
pub struct Position {
    pub row: i32,
    pub col: i32,
}

/// A cell of a maze together with its wall bitmask.
#[derive(Clone, Copy, Debug)]
pub struct Cell {
    pub position: Position,
    pub state: i8,
}

/// A direction bit together with its display name.
pub struct DirectionAndName {
    pub name: String,
    pub value: i8,
}

pub open spec fn is_direction(d: i8) -> bool {
    d == UP || d == RIGHT || d == DOWN || d == LEFT
}

/// The k-th direction in the fixed listing order up, right, down, left.
pub open spec fn spec_direction_at(k: int) -> i8 {
    if k == 0 {
        UP
    } else if k == 1 {
        RIGHT
    } else if k == 2 {
        DOWN
    } else {
        LEFT
    }
}

pub open spec fn row_delta(d: i8) -> int {
    if d == UP {
        -1
    } else if d == DOWN {
        1
    } else {
        0
    }
}

pub open spec fn col_delta(d: i8) -> int {
    if d == LEFT {
        -1
    } else if d == RIGHT {
        1
    } else {
        0
    }
}

pub open spec fn opposite(d: i8) -> i8 {
    if d == UP {
        DOWN
    } else if d == DOWN {
        UP
    } else if d == LEFT {
        RIGHT
    } else {
        LEFT
    }
}

pub open spec fn name_of(d: i8) -> Seq<char> {
    if d == UP {
        "up"@
    } else if d == RIGHT {
        "right"@
    } else if d == DOWN {
        "down"@
    } else {
        "left"@
    }
}

/// Whether the wall of `state` in direction `d` is open.
pub open spec fn is_open(state: i8, d: i8) -> bool {
    state & d != 0
}

/// The directions among the first `k` of the listing order whose wall is closed.
pub open spec fn closed_walls(state: i8, k: int) -> Seq<i8>
    decreases k,
{
    if k <= 0 {
        Seq::empty()
    } else {
        let d = spec_direction_at(k - 1);
        if is_open(state, d) {
            closed_walls(state, k - 1)
        } else {
            closed_walls(state, k - 1).push(d)
        }
    }
}

/// The names of the given directions, separated by ", ".
pub open spec fn joined_names(ds: Seq<i8>) -> Seq<char>
    decreases ds.len(),
{
    if ds.len() == 0 {
        Seq::empty()
    } else if ds.len() == 1 {
        name_of(ds[0])
    } else {
        joined_names(ds.drop_last()) + ", "@ + name_of(ds.last())
    }
}

/// The names of the closed walls of a cell, in the order up, right, down, left.
pub open spec fn wall_names(state: i8) -> Seq<char> {
    joined_names(closed_walls(state, 4))
}

pub open spec fn digit_char(d: int) -> char {
    if d == 0 {
        '0'
    } else if d == 1 {
        '1'
    } else if d == 2 {
        '2'
    } else if d == 3 {
        '3'
    } else if d == 4 {
        '4'
    } else if d == 5 {
        '5'
    } else if d == 6 {
        '6'
    } else if d == 7 {
        '7'
    } else if d == 8 {
        '8'
    } else {
        '9'
    }
}

pub open spec fn natural_digits(n: nat) -> Seq<char>
    decreases n,
{
    if n < 10 {
        seq![digit_char(n as int)]
    } else {
        natural_digits(n / 10).push(digit_char((n % 10) as int))
    }
}

/// The decimal notation of an integer, with a leading '-' when it is negative.
pub open spec fn decimal_of(n: int) -> Seq<char> {
    if n < 0 {
        seq!['-'] + natural_digits((-n) as nat)
    } else {
        natural_digits(n as nat)
    }
}

/// Relies on `ToString::to_string` through the standard library's `Display`
/// for `i128`: its decimal digits, preceded by '-' when negative.
#[verifier::external_body]
pub(crate) fn decimal(n: i128) -> (r: String)
    ensures
        r@ == decimal_of(n as int),
{
    n.to_string()
}

pub fn direction_at(k: usize) -> (d: i8)
    requires
        k < 4,
    ensures
        d == spec_direction_at(k as int),
        is_direction(d),
{
    if k == 0 {
        UP
    } else if k == 1 {
        RIGHT
    } else if k == 2 {
        DOWN
    } else {
        LEFT
    }
}

/// The offset that a step in direction `d` adds to the row.
pub fn row_offset(d: i8) -> (r: i32)
    requires
        is_direction(d),
    ensures
        r as int == row_delta(d),
{
    if d == UP {
        -1
    } else if d == DOWN {
        1
    } else {
        0
    }
}

/// The offset that a step in direction `d` adds to the column.
pub fn col_offset(d: i8) -> (r: i32)
    requires
        is_direction(d),
    ensures
        r as int == col_delta(d),
{
    if d == LEFT {
        -1
    } else if d == RIGHT {
        1
    } else {
        0
    }
}

pub fn opposite_direction(d: i8) -> (r: i8)
    requires
        is_direction(d),
    ensures
        r == opposite(d),
        is_direction(r),
{
    if d == UP {
        DOWN
    } else if d == DOWN {
        UP
    } else if d == LEFT {
        RIGHT
    } else {
        LEFT
    }
}

pub fn direction_name(d: i8) -> (r: String)
    ensures
        r@ == name_of(d),
{
    if d == UP {
        String::from_str("up")
    } else if d == RIGHT {
        String::from_str("right")
    } else if d == DOWN {
        String::from_str("down")
    } else {
        String::from_str("left")
    }
}

/// Whether the wall of a cell in direction `d` is open.
pub fn wall_open(state: i8, d: i8) -> (r: bool)
    ensures
        r == is_open(state, d),
{
    state & d != 0
}

/// The names of the closed walls of a cell, joined by ", ".
pub fn get_cell_wall_names(cell: &i8) -> (r: String)
    ensures
        r@ == wall_names(*cell),
{
    let mut walls: Vec<i8> = Vec::new();
    let mut k: usize = 0;
    while k < 4
        invariant
            k <= 4,
            walls@ == closed_walls(*cell, k as int),
            forall|i: int| 0 <= i < walls@.len() ==> is_direction(#[trigger] walls@[i]),
        decreases 4 - k,
    {
        let d = direction_at(k);
        if !wall_open(*cell, d) {
            walls.push(d);
        }
        k = k + 1;
    }
    let mut text = String::new();
    let mut i: usize = 0;
    while i < walls.len()
        invariant
            i <= walls@.len(),
            forall|j: int| 0 <= j < walls@.len() ==> is_direction(#[trigger] walls@[j]),
            text@ == joined_names(walls@.subrange(0, i as int)),
        decreases walls@.len() - i,
    {
        proof {
            let next = walls@.subrange(0, i + 1);
            assert(next.drop_last() =~= walls@.subrange(0, i as int));
        }
        if i > 0 {
            text.append(", ");
        }
        let name = direction_name(walls[i]);
        text.append(name.as_str());
        i = i + 1;
    }
    assert(walls@.subrange(0, walls@.len() as int) =~= walls@);
    text
}

/// The direction of a single step from `last_position` to (`row`, `col`);
/// the step is known to change exactly one coordinate by one.
pub fn determine_move_direction(last_position: &Position, row: &i32, col: &i32) -> (r:
    DirectionAndName)
    ensures
        r.value == step_direction(*last_position, Position { row: *row, col: *col }),
        r.name@ == name_of(r.value),
{
    let value = if last_position.row != *row {
        if *row < last_position.row {
            UP
        } else {
            DOWN
        }
    } else if *col < last_position.col {
        LEFT
    } else {
        RIGHT
    };
    DirectionAndName { name: direction_name(value), value }
}

/// The direction of a step from `from` to `to`, by the coordinate that changed.
pub open spec fn step_direction(from: Position, to: Position) -> i8 {
    if from.row != to.row {
        if to.row < from.row {
            UP
        } else {
            DOWN
        }
    } else if to.col < from.col {
        LEFT
    } else {
        RIGHT
    }
}

} // verus!
