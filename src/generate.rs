//! Generation of a perfect maze by randomized depth-first carving.

use crate::grid::{
    CELL_UNEXPLORED, DOWN, LEFT, Position, RIGHT, UP, col_offset, is_direction, is_open,
    opposite, opposite_direction, row_offset, step_direction,
};
use crate::maze::{
    PrefectRectangularMazeNoLoops, degree, grid_bits, grid_closed_at, grid_closed_border,
    grid_in_bounds, grid_index, grid_reached, grid_state, grid_symmetric, grid_walk, neighbor,
    origin, total_degree,
};
use rand::seq::SliceRandom;
use vstd::prelude::*;

verus! {

/// The number of untouched cells.
pub open spec fn count_unexplored(s: Seq<i8>) -> nat
    decreases s.len(),
{
    if s.len() == 0 {
        0
    } else {
        count_unexplored(s.drop_last()) + if s.last() == 0 {
            1nat
        } else {
            0nat
        }
    }
}

/// Four directions in some order: each of them exactly once.
pub open spec fn is_direction_order(s: Seq<i8>) -> bool {
    &&& s.len() == 4
    &&& forall|i: int| 0 <= i < 4 ==> is_direction(#[trigger] s[i])
    &&& forall|d: i8| is_direction(d) ==> s.contains(d)
}

/// Writing one cell changes the untouched count by that cell alone.
proof fn lemma_count_unexplored_update(s: Seq<i8>, i: int, v: i8)
    requires
        0 <= i < s.len(),
    ensures
        count_unexplored(s.update(i, v)) + (if s[i] == 0 {
            1int
        } else {
            0int
        }) == count_unexplored(s) + (if v == 0 {
            1int
        } else {
            0int
        }),
    decreases s.len(),
{
    if i < s.len() - 1 {
        assert(s.update(i, v).drop_last() =~= s.drop_last().update(i, v));
        lemma_count_unexplored_update(s.drop_last(), i, v);
    } else {
        assert(s.update(i, v).drop_last() =~= s.drop_last());
    }
}

/// An on-grid position has a row-major index inside the grid.
proof fn lemma_index_bounds(rows: int, cols: int, p: Position)
    requires
        grid_in_bounds(rows, cols, p),
    ensures
        0 <= grid_index(cols, p) < rows * cols,
{
    let (r, c) = (p.row as int, p.col as int);
    assert(0 <= r * cols + c < rows * cols) by (nonlinear_arith)
        requires
            0 <= r < rows,
            0 <= c < cols,
    ;
}

/// Distinct on-grid positions have distinct row-major indices.
proof fn lemma_index_injective(rows: int, cols: int, p: Position, q: Position)
    requires
        grid_in_bounds(rows, cols, p),
        grid_in_bounds(rows, cols, q),
        grid_index(cols, p) == grid_index(cols, q),
    ensures
        p == q,
{
    let (r1, c1, r2, c2) = (p.row as int, p.col as int, q.row as int, q.col as int);
    assert(r1 == r2) by (nonlinear_arith)
        requires
            0 <= c1 < cols,
            0 <= c2 < cols,
            r1 * cols + c1 == r2 * cols + c2,
    {
        if r1 < r2 {
            assert(r1 * cols + cols <= r2 * cols);
        } else if r2 < r1 {
            assert(r2 * cols + cols <= r1 * cols);
        }
    }
}

/// Writing one cell changes the state at that cell's position only.
proof fn lemma_state_update(cells: Seq<i8>, rows: int, cols: int, p: Position, v: i8)
    requires
        cells.len() == rows * cols,
        grid_in_bounds(rows, cols, p),
    ensures
        forall|q: Position|
            grid_in_bounds(rows, cols, q) ==> #[trigger] grid_state(
                cells.update(grid_index(cols, p), v),
                cols,
                q,
            ) == if q == p {
                v
            } else {
                grid_state(cells, cols, q)
            },
{
    lemma_index_bounds(rows, cols, p);
    assert forall|q: Position| grid_in_bounds(rows, cols, q) implies #[trigger] grid_state(
        cells.update(grid_index(cols, p), v),
        cols,
        q,
    ) == if q == p {
        v
    } else {
        grid_state(cells, cols, q)
    } by {
        lemma_index_bounds(rows, cols, q);
        if q != p && grid_index(cols, q) == grid_index(cols, p) {
            lemma_index_injective(rows, cols, p, q);
        }
    }
}

/// Setting a direction bit opens that wall only, and never leaves a cell untouched.
proof fn lemma_or_direction(x: i8, d: i8, e: i8)
    requires
        is_direction(d),
        is_direction(e),
    ensures
        is_open(x | d, e) == (is_open(x, e) || d == e),
        x | d != 0,
        0 <= x <= 15 ==> 0 <= x | d <= 15,
        !is_open(0, e),
{
    assert(((x | d) & e != 0) == ((x & e != 0) || d == e)) by (bit_vector)
        requires
            d == 1 || d == 2 || d == 4 || d == 8,
            e == 1 || e == 2 || e == 4 || e == 8,
    ;
    assert(x | d != 0) by (bit_vector)
        requires
            d == 1 || d == 2 || d == 4 || d == 8,
    ;
    assert(0 <= x <= 15 ==> 0 <= x | d <= 15) by (bit_vector)
        requires
            d == 1 || d == 2 || d == 4 || d == 8,
    ;
    assert((0i8 & e) == 0) by (bit_vector);
}

/// Stepping back undoes a step, and distinct directions lead to distinct cells.
proof fn lemma_neighbor_facts(p: Position, d: i8, e: i8)
    requires
        is_direction(d),
        is_direction(e),
        -1 <= p.row < 0x7fff_ffff,
        -1 <= p.col < 0x7fff_ffff,
    ensures
        neighbor(neighbor(p, d), opposite(d)) == p,
        neighbor(p, d) != p,
        d != e ==> neighbor(p, d) != neighbor(p, e),
        is_direction(opposite(d)),
        step_direction(p, neighbor(p, d)) == d,
{
}

/// Opening the wall of `cur` toward an untouched on-grid neighbor, and that
/// neighbor's matching wall, keeps the walls symmetric and the border closed.
proof fn lemma_carve_keeps_walls(
    before: Seq<i8>,
    after: Seq<i8>,
    rows: int,
    cols: int,
    cur: Position,
    d: i8,
)
    requires
        before.len() == rows * cols,
        rows <= 0x7fff_ffff,
        cols <= 0x7fff_ffff,
        is_direction(d),
        grid_in_bounds(rows, cols, cur),
        grid_in_bounds(rows, cols, neighbor(cur, d)),
        grid_state(before, cols, neighbor(cur, d)) == 0,
        after == before.update(grid_index(cols, cur), grid_state(before, cols, cur) | d).update(
            grid_index(cols, neighbor(cur, d)),
            0i8 | opposite(d),
        ),
        grid_bits(before),
        grid_symmetric(before, rows, cols),
        grid_closed_border(before, rows, cols),
    ensures
        grid_bits(after),
        grid_symmetric(after, rows, cols),
        grid_closed_border(after, rows, cols),
        forall|q: Position|
            grid_in_bounds(rows, cols, q) ==> #[trigger] grid_state(after, cols, q) == if q
                == cur {
                grid_state(before, cols, cur) | d
            } else if q == neighbor(cur, d) {
                opposite(d)
            } else {
                grid_state(before, cols, q)
            },
{
    let nb = neighbor(cur, d);
    let od = opposite(d);
    let a = grid_state(before, cols, cur) | d;
    let middle = before.update(grid_index(cols, cur), a);
    lemma_index_bounds(rows, cols, cur);
    lemma_index_bounds(rows, cols, nb);
    lemma_neighbor_facts(cur, d, d);
    lemma_state_update(before, rows, cols, cur, a);
    lemma_state_update(middle, rows, cols, nb, 0i8 | od);
    assert((0i8 | od) == od) by (bit_vector);
    lemma_or_direction(grid_state(before, cols, cur), d, d);
    assert forall|q: Position|
        grid_in_bounds(rows, cols, q) implies #[trigger] grid_state(after, cols, q) == if q
        == cur {
        a
    } else if q == nb {
        od
    } else {
        grid_state(before, cols, q)
    } by {
        assert(grid_state(after, cols, q) == if q == nb {
            od
        } else {
            grid_state(middle, cols, q)
        });
    }
    assert forall|i: int| 0 <= i < after.len() implies 0 <= #[trigger] after[i] <= 15 by {
        assert(0 <= before[i] <= 15);
        assert(0 <= before[grid_index(cols, cur)] <= 15);
    }
    assert forall|p: Position, e: i8|
        grid_in_bounds(rows, cols, p) && is_direction(e) && grid_in_bounds(
            rows,
            cols,
            #[trigger] neighbor(p, e),
        ) implies (is_open(grid_state(after, cols, p), e) == is_open(
        grid_state(after, cols, neighbor(p, e)),
        opposite(e),
    )) by {
        let q = neighbor(p, e);
        lemma_neighbor_facts(p, e, d);
        lemma_neighbor_facts(p, e, od);
        lemma_neighbor_facts(q, opposite(e), d);
        lemma_neighbor_facts(cur, d, e);
        lemma_neighbor_facts(nb, od, e);
        lemma_or_direction(grid_state(before, cols, cur), d, e);
        lemma_or_direction(grid_state(before, cols, cur), d, opposite(e));
        lemma_or_direction(0, od, e);
        lemma_or_direction(0, od, opposite(e));
        assert(0i8 | od == od) by (bit_vector);
        assert(is_open(grid_state(before, cols, p), e) == is_open(
            grid_state(before, cols, q),
            opposite(e),
        ));
        if p == nb || q == nb {
            // the neighbor was untouched, so every wall facing it was closed
            assert(!is_open(grid_state(before, cols, nb), e));
            assert(!is_open(grid_state(before, cols, nb), opposite(e)));
        }
    }
    assert forall|p: Position, e: i8|
        grid_in_bounds(rows, cols, p) && is_direction(e) && #[trigger] is_open(
            grid_state(after, cols, p),
            e,
        ) implies grid_in_bounds(rows, cols, neighbor(p, e)) by {
        lemma_or_direction(grid_state(before, cols, cur), d, e);
        lemma_or_direction(0, od, e);
        lemma_neighbor_facts(cur, d, e);
        assert(0i8 | od == od) by (bit_vector);
        if p != cur && p != nb {
            assert(is_open(grid_state(before, cols, p), e));
        }
    }
}

/// One carve opens exactly two walls, touches the neighbor, and closes no wall.
proof fn lemma_carve_counts(
    before: Seq<i8>,
    after: Seq<i8>,
    rows: int,
    cols: int,
    cur: Position,
    d: i8,
)
    requires
        before.len() == rows * cols,
        rows <= 0x7fff_ffff,
        cols <= 0x7fff_ffff,
        is_direction(d),
        grid_in_bounds(rows, cols, cur),
        grid_in_bounds(rows, cols, neighbor(cur, d)),
        grid_state(before, cols, neighbor(cur, d)) == 0,
        after == before.update(grid_index(cols, cur), grid_state(before, cols, cur) | d).update(
            grid_index(cols, neighbor(cur, d)),
            0i8 | opposite(d),
        ),
        grid_bits(before),
        grid_symmetric(before, rows, cols),
        grid_closed_border(before, rows, cols),
    ensures
        forall|q: Position, e: i8|
            grid_in_bounds(rows, cols, q) && is_direction(e) && is_open(
                grid_state(before, cols, q),
                e,
            ) ==> #[trigger] is_open(grid_state(after, cols, q), e),
        forall|q: Position|
            grid_in_bounds(rows, cols, q) && grid_reached(before, cols, q) ==> #[trigger] grid_reached(
                after,
                cols,
                q,
            ),
        is_open(grid_state(after, cols, cur), d),
        !is_open(grid_state(before, cols, cur), d),
        grid_state(after, cols, cur) != 0,
        total_degree(after) == total_degree(before) + 2,
        count_unexplored(after) + 1 + (if grid_state(before, cols, cur) == 0 {
            1int
        } else {
            0int
        }) == count_unexplored(before),
{
    let nb = neighbor(cur, d);
    let od = opposite(d);
    let a = grid_state(before, cols, cur) | d;
    let middle = before.update(grid_index(cols, cur), a);
    lemma_carve_keeps_walls(before, after, rows, cols, cur, d);
    lemma_index_bounds(rows, cols, cur);
    lemma_index_bounds(rows, cols, nb);
    lemma_neighbor_facts(cur, d, d);
    lemma_or_direction(0, od, od);
    assert((0i8 | od) == od) by (bit_vector);
    assert(middle[grid_index(cols, nb)] == 0) by {
        if grid_index(cols, cur) == grid_index(cols, nb) {
            lemma_index_injective(rows, cols, cur, nb);
        }
    }
    assert(is_open(grid_state(before, cols, cur), d) == is_open(
        grid_state(before, cols, nb),
        od,
    ));
    assert forall|q: Position, e: i8|
        grid_in_bounds(rows, cols, q) && is_direction(e) && is_open(
            grid_state(before, cols, q),
            e,
        ) implies #[trigger] is_open(grid_state(after, cols, q), e) by {
        lemma_or_direction(grid_state(before, cols, cur), d, e);
        lemma_or_direction(0, od, e);
    }
    lemma_degree_or(grid_state(before, cols, cur), d);
    lemma_degree_or(0, od);
    lemma_or_direction(0, od, UP);
    lemma_or_direction(0, od, RIGHT);
    lemma_or_direction(0, od, DOWN);
    lemma_or_direction(0, od, LEFT);
    lemma_total_degree_update(before, grid_index(cols, cur), a);
    lemma_total_degree_update(middle, grid_index(cols, nb), 0i8 | od);
    lemma_count_unexplored_update(before, grid_index(cols, cur), a);
    lemma_count_unexplored_update(middle, grid_index(cols, nb), 0i8 | od);
}

/// A grid whose cells are all untouched has every wall closed.
proof fn lemma_untouched_grid(cells: Seq<i8>, rows: int, cols: int)
    requires
        forall|i: int| 0 <= i < cells.len() ==> #[trigger] cells[i] == 0,
    ensures
        grid_bits(cells),
        grid_symmetric(cells, rows, cols),
        grid_closed_border(cells, rows, cols),
{
    assert forall|p: Position, e: i8| is_direction(e) implies !#[trigger] is_open(
        grid_state(cells, cols, p),
        e,
    ) by {
        lemma_or_direction(0, e, e);
    }
}

/// Writing one cell changes the open-wall total by that cell alone.
proof fn lemma_total_degree_update(s: Seq<i8>, i: int, v: i8)
    requires
        0 <= i < s.len(),
    ensures
        total_degree(s.update(i, v)) + degree(s[i]) == total_degree(s) + degree(v),
    decreases s.len(),
{
    if i < s.len() - 1 {
        assert(s.update(i, v).drop_last() =~= s.drop_last().update(i, v));
        lemma_total_degree_update(s.drop_last(), i, v);
    } else {
        assert(s.update(i, v).drop_last() =~= s.drop_last());
    }
}

/// Opening a closed wall adds one open wall to the cell.
proof fn lemma_degree_or(x: i8, d: i8)
    requires
        is_direction(d),
        !is_open(x, d),
    ensures
        degree(x | d) == degree(x) + 1,
{
    lemma_or_direction(x, d, UP);
    lemma_or_direction(x, d, RIGHT);
    lemma_or_direction(x, d, DOWN);
    lemma_or_direction(x, d, LEFT);
}

/// Where every cell but the first is touched, at most the first is untouched.
proof fn lemma_count_all_touched(s: Seq<i8>)
    requires
        s.len() >= 1,
        forall|i: int| 1 <= i < s.len() ==> #[trigger] s[i] != 0,
    ensures
        count_unexplored(s) == if s[0] == 0 {
            1nat
        } else {
            0nat
        },
    decreases s.len(),
{
    if s.len() > 1 {
        lemma_count_all_touched(s.drop_last());
        assert(s.last() != 0);
    } else {
        assert(count_unexplored(s.drop_last()) == 0);
    }
}

/// A walk stays a walk when walls are only opened.
proof fn lemma_walk_monotone(
    before: Seq<i8>,
    after: Seq<i8>,
    rows: int,
    cols: int,
    w: Seq<Position>,
)
    requires
        grid_walk(before, rows, cols, w),
        forall|q: Position, e: i8|
            grid_in_bounds(rows, cols, q) && is_direction(e) && is_open(
                grid_state(before, cols, q),
                e,
            ) ==> #[trigger] is_open(grid_state(after, cols, q), e),
        grid_in_bounds(rows, cols, origin()),
    ensures
        grid_walk(after, rows, cols, w),
{
    assert forall|i: int| 1 <= i < w.len() implies {
        let d = step_direction(w[i - 1], #[trigger] w[i]);
        &&& grid_in_bounds(rows, cols, w[i])
        &&& w[i] == neighbor(w[i - 1], d)
        &&& is_open(grid_state(after, cols, w[i - 1]), d)
    } by {
        let d = step_direction(w[i - 1], w[i]);
        if i >= 2 {
            assert(grid_in_bounds(rows, cols, w[i - 1]));
        }
        assert(is_open(grid_state(before, cols, w[i - 1]), d));
    }
}

/// When every reached cell has all its neighbors reached, and the origin is
/// on the grid, every cell has been reached.
proof fn lemma_all_reached(cells: Seq<i8>, rows: int, cols: int, r: int, c: int)
    requires
        rows >= 1,
        cols >= 1,
        rows <= 0x7fff_ffff,
        cols <= 0x7fff_ffff,
        0 <= r < rows,
        0 <= c < cols,
        forall|p: Position|
            grid_in_bounds(rows, cols, p) && #[trigger] grid_reached(cells, cols, p)
                ==> grid_closed_at(cells, rows, cols, p),
    ensures
        grid_reached(cells, cols, Position { row: r as i32, col: c as i32 }),
    decreases r + c,
{
    if r > 0 {
        let above = Position { row: (r - 1) as i32, col: c as i32 };
        lemma_all_reached(cells, rows, cols, r - 1, c);
        assert(neighbor(above, DOWN) == Position { row: r as i32, col: c as i32 });
    } else if c > 0 {
        let left = Position { row: r as i32, col: (c - 1) as i32 };
        lemma_all_reached(cells, rows, cols, r, c - 1);
        assert(neighbor(left, RIGHT) == Position { row: r as i32, col: c as i32 });
    }
}

/// An untouched grid has no open wall and every cell untouched.
proof fn lemma_untouched_counts(s: Seq<i8>)
    requires
        forall|i: int| 0 <= i < s.len() ==> #[trigger] s[i] == 0,
    ensures
        total_degree(s) == 0,
        count_unexplored(s) == s.len(),
    decreases s.len(),
{
    if s.len() > 0 {
        lemma_untouched_counts(s.drop_last());
        lemma_or_direction(0, UP, UP);
        lemma_or_direction(0, UP, RIGHT);
        lemma_or_direction(0, UP, DOWN);
        lemma_or_direction(0, UP, LEFT);
        assert(s.last() == 0);
    }
}

/// Once no reached cell has an unreached neighbor, every cell but possibly
/// the origin is touched.
proof fn lemma_all_reached_everywhere(cells: Seq<i8>, rows: int, cols: int)
    requires
        rows >= 1,
        cols >= 1,
        rows <= 0x7fff_ffff,
        cols <= 0x7fff_ffff,
        cells.len() == rows * cols,
        forall|p: Position|
            grid_in_bounds(rows, cols, p) && #[trigger] grid_reached(cells, cols, p)
                ==> grid_closed_at(cells, rows, cols, p),
    ensures
        forall|p: Position| grid_in_bounds(rows, cols, p) ==> #[trigger] grid_reached(cells, cols, p),
        forall|i: int| 1 <= i < cells.len() ==> #[trigger] cells[i] != 0,
{
    assert forall|p: Position| grid_in_bounds(rows, cols, p) implies #[trigger] grid_reached(
        cells,
        cols,
        p,
    ) by {
        lemma_all_reached(cells, rows, cols, p.row as int, p.col as int);
    }
    assert forall|i: int| 1 <= i < cells.len() implies #[trigger] cells[i] != 0 by {
        let (r, c) = (i / cols, i % cols);
        assert(i == r * cols + c && 0 <= c < cols && 0 <= r < rows) by (nonlinear_arith)
            requires
                r == i / cols,
                c == i % cols,
                cols >= 1,
                0 <= i < rows * cols,
        {
            assert(i == cols * (i / cols) + i % cols);
            assert(r * cols <= i);
            if r >= rows {
                assert(r * cols >= rows * cols);
            }
        }
        let p = Position { row: r as i32, col: c as i32 };
        assert(p.row as int == r && p.col as int == c);
        assert(grid_in_bounds(rows, cols, p));
        assert(grid_reached(cells, cols, p));
        assert(grid_index(cols, p) == i);
        assert(r != 0 || c != 0) by {
            if r == 0 {
                assert(r * cols == 0) by (nonlinear_arith)
                    requires
                        r == 0,
                ;
            }
        }
        assert(p != origin());
        assert(grid_state(cells, cols, p) == cells[i]);
        assert(grid_state(cells, cols, p) != 0);
    }
}

/// One carve keeps a walk for every reached cell and keeps every reached
/// cell either pending on the stack, finished, or the current one.
proof fn lemma_carve_invariants(
    before: Seq<i8>,
    after: Seq<i8>,
    rows: int,
    cols: int,
    cur: Position,
    d: i8,
    stack: Seq<Position>,
    walks: Map<Position, Seq<Position>>,
) -> (new_walks: Map<Position, Seq<Position>>)
    requires
        before.len() == rows * cols,
        rows >= 1,
        cols >= 1,
        rows <= 0x7fff_ffff,
        cols <= 0x7fff_ffff,
        is_direction(d),
        grid_in_bounds(rows, cols, cur),
        grid_in_bounds(rows, cols, neighbor(cur, d)),
        grid_state(before, cols, neighbor(cur, d)) == 0,
        neighbor(cur, d) != origin(),
        grid_reached(before, cols, cur),
        after == before.update(grid_index(cols, cur), grid_state(before, cols, cur) | d).update(
            grid_index(cols, neighbor(cur, d)),
            0i8 | opposite(d),
        ),
        grid_bits(before),
        grid_symmetric(before, rows, cols),
        grid_closed_border(before, rows, cols),
        forall|p: Position|
            grid_in_bounds(rows, cols, p) && #[trigger] grid_reached(before, cols, p)
                ==> stack.contains(p) || grid_closed_at(before, rows, cols, p) || p == cur,
        forall|p: Position|
            grid_in_bounds(rows, cols, p) && #[trigger] grid_reached(before, cols, p)
                ==> walks.contains_key(p) && grid_walk(before, rows, cols, walks[p]) && walks[p].last()
                == p,
    ensures
        forall|p: Position|
            grid_in_bounds(rows, cols, p) && #[trigger] grid_reached(after, cols, p)
                ==> stack.push(neighbor(cur, d)).contains(p) || grid_closed_at(after, rows, cols, p)
                || p == cur,
        forall|p: Position|
            grid_in_bounds(rows, cols, p) && #[trigger] grid_reached(after, cols, p)
                ==> new_walks.contains_key(p) && grid_walk(after, rows, cols, new_walks[p])
                && new_walks[p].last() == p,
{
    let next = neighbor(cur, d);
    lemma_carve_keeps_walls(before, after, rows, cols, cur, d);
    lemma_carve_counts(before, after, rows, cols, cur, d);
    lemma_neighbor_facts(cur, d, d);
    lemma_index_bounds(rows, cols, origin());
    lemma_walk_monotone(before, after, rows, cols, walks[cur]);
    let w = walks[cur].push(next);
    assert forall|i: int| 1 <= i < w.len() implies {
        let e = step_direction(w[i - 1], #[trigger] w[i]);
        &&& grid_in_bounds(rows, cols, w[i])
        &&& w[i] == neighbor(w[i - 1], e)
        &&& is_open(grid_state(after, cols, w[i - 1]), e)
    } by {
        if i < w.len() - 1 {
            assert(w[i] == walks[cur][i]);
            assert(w[i - 1] == walks[cur][i - 1]);
        }
    }
    assert(grid_walk(after, rows, cols, w));
    let new_walks = walks.insert(next, w);
    assert forall|p: Position|
        grid_in_bounds(rows, cols, p) && #[trigger] grid_reached(after, cols, p) implies new_walks.contains_key(p)
            && grid_walk(after, rows, cols, new_walks[p]) && new_walks[p].last() == p by {
        if p != next {
            assert(grid_reached(before, cols, p));
            lemma_walk_monotone(before, after, rows, cols, walks[p]);
        }
    }
    let pushed = stack.push(next);
    assert forall|p: Position|
        grid_in_bounds(rows, cols, p) && #[trigger] grid_reached(after, cols, p) implies pushed.contains(p)
            || grid_closed_at(after, rows, cols, p) || p == cur by {
        if p == next {
            assert(pushed[pushed.len() - 1] == p);
        } else {
            assert(grid_reached(before, cols, p));
            if stack.contains(p) {
                let i = choose|i: int| 0 <= i < stack.len() && stack[i] == p;
                assert(pushed[i] == p);
            }
            if grid_closed_at(before, rows, cols, p) {
                assert forall|e: i8|
                    is_direction(e) && grid_in_bounds(rows, cols, #[trigger] neighbor(p, e)) implies grid_reached(
                        after,
                        cols,
                        neighbor(p, e),
                    ) by {
                    assert(grid_reached(before, cols, neighbor(p, e)));
                }
            }
        }
    }
    new_walks
}

/// Relies on rand's `SliceRandom::shuffle` driven by `thread_rng`: it only
/// reorders the elements (swaps), whatever the random draws.
#[verifier::external_body]
fn shuffle_in_place(v: &mut Vec<i8>)
    ensures
        final(v)@.to_multiset() == old(v)@.to_multiset(),
{
    v.shuffle(&mut rand::thread_rng());
}

/// The four directions in a uniformly random order.
pub fn shuffle_directions() -> (r: Vec<i8>)
    ensures
        r@.to_multiset() == seq![UP, RIGHT, DOWN, LEFT].to_multiset(),
        r@.len() == 4,
        forall|i: int| 0 <= i < 4 ==> is_direction(#[trigger] r@[i]),
        forall|d: i8| is_direction(d) ==> r@.contains(d),
{
    let mut directions: Vec<i8> = Vec::new();
    directions.push(UP);
    directions.push(RIGHT);
    directions.push(DOWN);
    directions.push(LEFT);
    let ghost before = directions@;
    assert(before =~= seq![UP, RIGHT, DOWN, LEFT]);
    shuffle_in_place(&mut directions);
    proof {
        broadcast use vstd::seq_lib::to_multiset_contains, vstd::seq_lib::to_multiset_len;

        assert(directions@.len() == directions@.to_multiset().len());
        assert(before.len() == before.to_multiset().len());
        assert forall|i: int| 0 <= i < 4 implies is_direction(#[trigger] directions@[i]) by {
            assert(directions@.contains(directions@[i]));
            assert(directions@.to_multiset().count(directions@[i]) > 0);
            assert(before.contains(directions@[i]));
        }
        assert forall|d: i8| is_direction(d) implies directions@.contains(d) by {
            if d == UP {
                assert(before[0] == d);
            } else if d == RIGHT {
                assert(before[1] == d);
            } else if d == DOWN {
                assert(before[2] == d);
            } else {
                assert(before[3] == d);
            }
            assert(before.contains(d));
            assert(before.to_multiset().count(d) > 0);
        }
    }
    directions
}

/// The row-major index of an on-grid position.
fn flat_index(num_rows: i32, num_columns: i32, p: Position) -> (r: usize)
    requires
        grid_in_bounds(num_rows as int, num_columns as int, p),
        num_rows as int * num_columns as int <= usize::MAX,
    ensures
        r as int == grid_index(num_columns as int, p),
        r < num_rows as int * num_columns as int,
{
    proof {
        lemma_index_bounds(num_rows as int, num_columns as int, p);
        let (r, c) = (p.row as int, num_columns as int);
        assert(0 <= r * c <= r * c + p.col) by (nonlinear_arith)
            requires
                0 <= r,
                0 <= c,
                0 <= p.col,
        ;
    }
    (p.row as usize) * (num_columns as usize) + (p.col as usize)
}

/// Carves a perfect maze of `num_rows` by `num_columns` cells by randomized
/// depth-first search from the top-left cell, with an explicit stack, drawing
/// a fresh random order of the four directions for each cell it explores.
pub fn generate_rectangular_maze(num_rows: i32, num_columns: i32) -> (m:
    PrefectRectangularMazeNoLoops)
    requires
        num_rows >= 1,
        num_columns >= 1,
        num_rows as int * num_columns as int <= usize::MAX,
    ensures
        m.num_rows == num_rows,
        m.num_columns == num_columns,
        m.is_perfect(),
{
    let n: usize = (num_rows as usize) * (num_columns as usize);
    let mut orders: Vec<Vec<i8>> = Vec::new();
    while orders.len() < n
        invariant
            orders@.len() <= n,
            forall|j: int| 0 <= j < orders@.len() ==> is_direction_order(#[trigger] orders@[j]@),
        decreases n - orders@.len(),
    {
        orders.push(shuffle_directions());
    }
    assert(n >= 1) by (nonlinear_arith)
        requires
            n == num_rows as int * num_columns as int,
            num_rows >= 1,
            num_columns >= 1,
    ;
    generate_rectangular_maze_with_orders(num_rows, num_columns, &orders)
}

/// Carves a maze as `generate_rectangular_maze` does, with the direction
/// orders given: the i-th cell taken off the stack tries the four directions
/// in the order `orders[i % orders.len()]`. The result is a perfect maze
/// whatever the orders are.
#[verifier::rlimit(100)]
pub fn generate_rectangular_maze_with_orders(
    num_rows: i32,
    num_columns: i32,
    orders: &Vec<Vec<i8>>,
) -> (m: PrefectRectangularMazeNoLoops)
    requires
        num_rows >= 1,
        num_columns >= 1,
        num_rows as int * num_columns as int <= usize::MAX,
        orders@.len() >= 1,
        forall|j: int| 0 <= j < orders@.len() ==> is_direction_order(#[trigger] orders@[j]@),
    ensures
        m.num_rows == num_rows,
        m.num_columns == num_columns,
        m.is_perfect(),
{
    let ghost (rows, cols) = (num_rows as int, num_columns as int);
    let n: usize = (num_rows as usize) * (num_columns as usize);
    let mut cells: Vec<i8> = Vec::new();
    while cells.len() < n
        invariant
            cells@.len() <= n,
            forall|i: int| 0 <= i < cells@.len() ==> #[trigger] cells@[i] == 0,
        decreases n - cells@.len(),
    {
        cells.push(CELL_UNEXPLORED);
    }
    let start = Position { row: 0, col: 0 };
    let end = Position { row: num_rows - 1, col: num_columns - 1 };
    let mut stack: Vec<Position> = Vec::new();
    stack.push(start);
    let mut turn: usize = 0;
    let ghost mut walks: Map<Position, Seq<Position>> = Map::empty().insert(
        origin(),
        seq![origin()],
    );
    proof {
        lemma_untouched_grid(cells@, rows, cols);
        lemma_untouched_counts(cells@);
        lemma_index_bounds(rows, cols, origin());
        assert(stack@[0] == origin());
    }
    while stack.len() > 0
        invariant
            cells@.len() == n,
            n == rows * cols,
            rows == num_rows,
            cols == num_columns,
            rows >= 1,
            cols >= 1,
            n <= usize::MAX,
            turn < orders@.len(),
            forall|j: int| 0 <= j < orders@.len() ==> is_direction_order(#[trigger] orders@[j]@),
            grid_bits(cells@),
            grid_symmetric(cells@, rows, cols),
            grid_closed_border(cells@, rows, cols),
            forall|i: int|
                0 <= i < stack@.len() ==> grid_in_bounds(rows, cols, #[trigger] stack@[i])
                    && grid_reached(cells@, cols, stack@[i]),
            forall|p: Position|
                grid_in_bounds(rows, cols, p) && #[trigger] grid_reached(cells@, cols, p)
                    ==> stack@.contains(p) || grid_closed_at(cells@, rows, cols, p),
            forall|p: Position|
                grid_in_bounds(rows, cols, p) && #[trigger] grid_reached(cells@, cols, p)
                    ==> walks.contains_key(p) && grid_walk(cells@, rows, cols, walks[p])
                    && walks[p].last() == p,
            grid_state(cells@, cols, origin()) == 0 ==> (forall|p: Position|
                grid_in_bounds(rows, cols, p) ==> #[trigger] grid_state(cells@, cols, p) == 0)
                && stack@.len() <= 1 && (stack@.len() == 1 ==> stack@[0] == origin()),
            total_degree(cells@) + 2 * count_unexplored(cells@) == 2 * (n - 1) + 2 * (if grid_state(
                cells@,
                cols,
                origin(),
            ) == 0 {
                1int
            } else {
                0int
            }),
        decreases count_unexplored(cells@) + stack@.len(),
    {
        let ghost measure = count_unexplored(cells@) + stack@.len();
        let ghost full = stack@;
        let cur = stack.pop().unwrap();
        proof {
            assert(full == stack@.push(cur));
            assert(grid_in_bounds(rows, cols, full[full.len() - 1]));
            assert forall|p: Position|
                grid_in_bounds(rows, cols, p) && #[trigger] grid_reached(cells@, cols, p) implies stack@.contains(p)
                    || grid_closed_at(cells@, rows, cols, p) || p == cur by {
                if full.contains(p) && p != cur {
                    let i = choose|i: int| 0 <= i < full.len() && full[i] == p;
                    assert(stack@[i] == p);
                }
            }
        }
        let directions = &orders[turn];
        turn = if turn < orders.len() - 1 {
            turn + 1
        } else {
            0
        };
        assert(is_direction_order(directions@));
        let mut k: usize = 0;
        while k < 4
            invariant
                cells@.len() == n,
                n == rows * cols,
                rows == num_rows,
                cols == num_columns,
                rows >= 1,
                cols >= 1,
                n <= usize::MAX,
                k <= 4,
                grid_in_bounds(rows, cols, cur),
                grid_reached(cells@, cols, cur),
                turn < orders@.len(),
                is_direction_order(directions@),
                grid_bits(cells@),
                grid_symmetric(cells@, rows, cols),
                grid_closed_border(cells@, rows, cols),
                forall|i: int|
                    0 <= i < stack@.len() ==> grid_in_bounds(rows, cols, #[trigger] stack@[i])
                        && grid_reached(cells@, cols, stack@[i]),
                forall|p: Position|
                    grid_in_bounds(rows, cols, p) && #[trigger] grid_reached(cells@, cols, p)
                        ==> stack@.contains(p) || grid_closed_at(cells@, rows, cols, p) || p == cur,
                forall|j: int|
                    0 <= j < k && grid_in_bounds(rows, cols, neighbor(cur, #[trigger] directions@[j]))
                        ==> grid_reached(cells@, cols, neighbor(cur, directions@[j])),
                forall|p: Position|
                    grid_in_bounds(rows, cols, p) && #[trigger] grid_reached(cells@, cols, p)
                        ==> walks.contains_key(p) && grid_walk(cells@, rows, cols, walks[p])
                        && walks[p].last() == p,
                grid_state(cells@, cols, origin()) == 0 ==> (forall|p: Position|
                    grid_in_bounds(rows, cols, p) ==> #[trigger] grid_state(cells@, cols, p) == 0)
                    && stack@.len() == 0 && cur == origin(),
                total_degree(cells@) + 2 * count_unexplored(cells@) == 2 * (n - 1) + 2 * (
                if grid_state(cells@, cols, origin()) == 0 {
                    1int
                } else {
                    0int
                }),
                count_unexplored(cells@) + stack@.len() < measure,
            decreases 4 - k,
        {
            let d = directions[k];
            let row = cur.row + row_offset(d);
            let col = cur.col + col_offset(d);
            let next = Position { row, col };
            proof {
                assert(next == neighbor(cur, d));
                lemma_neighbor_facts(cur, d, d);
            }
            if row >= 0 && row < num_rows && col >= 0 && col < num_columns {
                let ni = flat_index(num_rows, num_columns, next);
                if cells[ni] == CELL_UNEXPLORED {
                    let ci = flat_index(num_rows, num_columns, cur);
                    let od = opposite_direction(d);
                    let ghost before = cells@;
                    proof {
                        assert(grid_state(before, cols, next) == 0);
                        assert(next != origin());
                        lemma_or_direction(before[ci as int], d, d);
                        lemma_or_direction(0, od, od);
                    }
                    let a = cells[ci] | d;
                    cells.set(ci, a);
                    let ghost middle = cells@;
                    proof {
                        lemma_index_bounds(rows, cols, cur);
                        lemma_index_bounds(rows, cols, next);
                        if ci == ni {
                            lemma_index_injective(rows, cols, cur, next);
                        }
                        assert(middle[ni as int] == 0);
                    }
                    let b = cells[ni] | od;
                    cells.set(ni, b);
                    proof {
                        lemma_carve_keeps_walls(before, cells@, rows, cols, cur, d);
                        lemma_carve_counts(before, cells@, rows, cols, cur, d);
                        walks = lemma_carve_invariants(before, cells@, rows, cols, cur, d, stack@, walks);
                        assert(grid_state(cells@, cols, origin()) != 0) by {
                            lemma_index_bounds(rows, cols, origin());
                            if cur != origin() {
                                assert(grid_state(before, cols, origin()) != 0);
                            }
                        }
                    }
                    stack.push(next);
                }
            }
            k = k + 1;
        }
        proof {
            assert forall|p: Position|
                grid_in_bounds(rows, cols, p) && #[trigger] grid_reached(cells@, cols, p) implies stack@.contains(p)
                    || grid_closed_at(cells@, rows, cols, p) by {
                if p == cur {
                    assert forall|e: i8|
                        is_direction(e) && grid_in_bounds(rows, cols, #[trigger] neighbor(cur, e))
                            implies grid_reached(cells@, cols, neighbor(cur, e)) by {
                        assert(directions@.contains(e));
                        let j = choose|j: int| 0 <= j < 4 && directions@[j] == e;
                        assert(grid_in_bounds(rows, cols, neighbor(cur, directions@[j])));
                    }
                }
            }
        }
    }
    proof {
        lemma_all_reached_everywhere(cells@, rows, cols);
        lemma_count_all_touched(cells@);
        assert(0 * cols == 0) by (nonlinear_arith);
        assert(grid_index(cols, origin()) == 0);
        assert forall|p: Position| grid_in_bounds(rows, cols, p) implies exists|w: Seq<Position>|
            #[trigger] grid_walk(cells@, rows, cols, w) && w.last() == p by {
            assert(grid_reached(cells@, cols, p));
            assert(grid_walk(cells@, rows, cols, walks[p]));
        }
    }
    PrefectRectangularMazeNoLoops { num_rows, num_columns, start, end, cells }
}

} // verus!
