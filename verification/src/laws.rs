use vstd::prelude::*;

use crate::grid::Direction;
use crate::grid::Grid;
use crate::grid::lemma_count_true_full;
use crate::walker::Walker;
use crate::walker::has_unvisited_neighbor;
use crate::walker::inv;
use crate::walker::on_stack;
use crate::walker::pending;
use crate::walker::spec_candidates;
use crate::walker::step_taken;
use crate::walker::viable;
use crate::walker::StepEvent;
use crate::walker::lemma_candidates_sound;

verus! {

/// Whether the visited region can grow no further: no visited cell has
/// an unvisited neighbor left.
pub open spec fn adjacency_closed(g: Grid) -> bool {
    forall|r: int, c: int|
        g.in_bounds(r, c) && #[trigger] g.visited_at(r, c) ==> !has_unvisited_neighbor(g, r, c)
}

/// A flat index splits into the row and column it stands for.
proof fn lemma_flat_decompose(rows: int, cols: int, i: int)
    requires
        1 <= rows,
        1 <= cols,
        0 <= i < rows * cols,
    ensures
        ({
            let r = i / cols;
            let c = i % cols;
            0 <= r < rows && 0 <= c < cols && r * cols + c == i
        }),
{
    vstd::arithmetic::div_mod::lemma_fundamental_div_mod(i, cols);
    vstd::arithmetic::div_mod::lemma_mod_bound(i, cols);
    let q = i / cols;
    let rem = i % cols;
    assert(0 <= q < rows && q * cols + rem == i) by (nonlinear_arith)
        requires
            i == cols * q + rem,
            0 <= rem < cols,
            0 <= i < rows * cols,
            1 <= cols,
            1 <= rows,
    ;
}

/// Walking west from a visited cell of a closed region stays visited
/// all the way to the first column.
proof fn lemma_closed_reaches_col0(g: Grid, r: int, c: int)
    requires
        g.wf(),
        adjacency_closed(g),
        g.in_bounds(r, c),
        g.visited_at(r, c),
    ensures
        g.visited_at(r, 0),
    decreases c,
{
    if c > 0 {
        assert(!viable(g, r, c, Direction::West));
        lemma_closed_reaches_col0(g, r, c - 1);
    }
}

/// Walking north along the first column of a closed region stays
/// visited all the way to the origin.
proof fn lemma_closed_reaches_origin(g: Grid, r: int)
    requires
        g.wf(),
        adjacency_closed(g),
        g.in_bounds(r, 0),
        g.visited_at(r, 0),
    ensures
        g.visited_at(0, 0),
    decreases r,
{
    if r > 0 {
        assert(!viable(g, r, 0, Direction::North));
        lemma_closed_reaches_origin(g, r - 1);
    }
}

/// From a visited origin, a closed region reaches every row of the
/// first column.
proof fn lemma_closed_covers_col0(g: Grid, r: int)
    requires
        g.wf(),
        adjacency_closed(g),
        g.visited_at(0, 0),
        0 <= r < g.rows,
    ensures
        g.visited_at(r, 0),
    decreases r,
{
    if r > 0 {
        lemma_closed_covers_col0(g, r - 1);
        assert(!viable(g, r - 1, 0, Direction::South));
    }
}

/// From a visited first cell of its row, a closed region reaches every
/// cell of that row.
proof fn lemma_closed_covers_row(g: Grid, r: int, c: int)
    requires
        g.wf(),
        adjacency_closed(g),
        g.in_bounds(r, 0),
        g.visited_at(r, 0),
        0 <= c < g.cols,
    ensures
        g.visited_at(r, c),
    decreases c,
{
    if c > 0 {
        lemma_closed_covers_row(g, r, c - 1);
        assert(!viable(g, r, c - 1, Direction::East));
    }
}

/// A nonempty visited region that can grow no further covers the whole
/// grid: the grid graph is connected.
pub proof fn lemma_closed_covers_grid(g: Grid, r0: int, c0: int)
    requires
        g.wf(),
        adjacency_closed(g),
        g.in_bounds(r0, c0),
        g.visited_at(r0, c0),
    ensures
        forall|r: int, c: int| g.in_bounds(r, c) ==> g.visited_at(r, c),
{
    lemma_closed_reaches_col0(g, r0, c0);
    lemma_closed_reaches_origin(g, r0);
    assert forall|r: int, c: int| g.in_bounds(r, c) implies g.visited_at(r, c) by {
        lemma_closed_covers_col0(g, r);
        lemma_closed_covers_row(g, r, c);
    }
}

/// Completeness: once the walk reports finished, every one of the
/// rows x cols cells has been visited. Backtracking guarantees that
/// every visited cell with an unvisited neighbor is revisited before
/// the stack empties, so a finished walk has nothing left to reach.
pub proof fn lemma_finished_all_visited(w: Walker, g: Grid)
    requires
        inv(w, g),
        w.finished,
    ensures
        forall|r: int, c: int| g.in_bounds(r, c) ==> g.visited_at(r, c),
{
    assert forall|r: int, c: int|
        g.in_bounds(r, c) && #[trigger] g.visited_at(r, c) implies !has_unvisited_neighbor(
        g,
        r,
        c,
    ) by {
        if r == w.row && c == w.col {
        } else {
            assert(!on_stack(w, r, c));
            assert(!pending(w, r, c));
        }
    }
    lemma_closed_covers_grid(g, w.row as int, w.col as int);
}

/// The perfect-maze count: once the walk reports finished, exactly
/// rows x cols - 1 walls have been removed, the size of a spanning
/// tree of the grid graph. At every intermediate state the removed
/// walls already number one less than the visited cells.
pub proof fn lemma_finished_wall_count(w: Walker, g: Grid)
    requires
        inv(w, g),
        w.finished,
    ensures
        g.visited_cells() == g.rows * g.cols,
        g.removed_walls() + 1 == g.rows * g.cols,
{
    lemma_finished_all_visited(w, g);
    assert forall|i: int| 0 <= i < g.visited@.len() implies g.visited@[i] by {
        lemma_flat_decompose(g.rows as int, g.cols as int, i);
        let r = i / g.cols as int;
        let c = i % g.cols as int;
        assert(g.visited_at(r, c));
    }
    lemma_count_true_full(g.visited@);
}

/// Boundary safety at the smallest grid: the only cell of a 1x1 grid
/// has no viable direction at all, so the first step of the walk finds
/// a dead end over an empty stack and finishes with no wall removed.
pub proof fn lemma_single_cell_dead_end(g: Grid)
    requires
        g.wf(),
        g.rows == 1,
        g.cols == 1,
    ensures
        spec_candidates(g, 0, 0) =~= Seq::<Direction>::empty(),
        !has_unvisited_neighbor(g, 0, 0),
{
}

/// Boundary safety along a single row: the walk never attempts a
/// vertical move on a 1xN grid, since every candidate direction is
/// east or west.
pub proof fn lemma_single_row_no_vertical(g: Grid, r: int, c: int)
    requires
        g.wf(),
        g.rows == 1,
        g.in_bounds(r, c),
    ensures
        forall|k: int|
            0 <= k < spec_candidates(g, r, c).len() ==> ((#[trigger] spec_candidates(g, r, c)[k])
                == Direction::East || spec_candidates(g, r, c)[k] == Direction::West),
{
    lemma_candidates_sound(g, r, c);
}

/// The running wall budget: at every reachable state, finished or
/// not, the removed walls number exactly one less than the visited
/// cells, so the carved passages always form a tree.
pub proof fn lemma_wall_budget(w: Walker, g: Grid)
    requires
        inv(w, g),
    ensures
        g.removed_walls() + 1 == g.visited_cells(),
{
}

/// Determinism under a fixed random source: one step from one state
/// with one draw admits exactly one outcome, so two runs from the same
/// start that are fed the same draws emit the same event at every step
/// and agree on every cell and wall throughout.
pub proof fn lemma_step_deterministic(
    w0: Walker,
    g0: Grid,
    pick: int,
    w1: Walker,
    g1: Grid,
    ev1: StepEvent,
    w2: Walker,
    g2: Grid,
    ev2: StepEvent,
)
    requires
        inv(w0, g0),
        step_taken(w0, g0, pick, w1, g1, ev1),
        step_taken(w0, g0, pick, w2, g2, ev2),
    ensures
        ev1 == ev2,
        w1.row == w2.row,
        w1.col == w2.col,
        w1.history@ == w2.history@,
        w1.finished == w2.finished,
        forall|r: int, c: int|
            g0.in_bounds(r, c) ==> (#[trigger] g1.visited_at(r, c)) == g2.visited_at(r, c),
        forall|r: int, c: int|
            g0.in_bounds(r, c) ==> (#[trigger] g1.east_open_at(r, c)) == g2.east_open_at(r, c),
        forall|r: int, c: int|
            g0.in_bounds(r, c) ==> (#[trigger] g1.south_open_at(r, c)) == g2.south_open_at(r, c),
{
    let cands = spec_candidates(g0, w0.row as int, w0.col as int);
    if cands.len() > 0 {
        let d = cands[pick % cands.len() as int];
        assert forall|r: int, c: int| g0.in_bounds(r, c) implies (#[trigger] g1.east_open_at(r, c))
            == g2.east_open_at(r, c) by {
            if d.vertical() && r == d.canon_r(w0.row as int) && c == d.canon_c(w0.col as int) {
                assert(g1.wall_open_at(w0.row as int, w0.col as int, d));
                assert(g2.wall_open_at(w0.row as int, w0.col as int, d));
            }
        }
        assert forall|r: int, c: int| g0.in_bounds(r, c) implies (#[trigger] g1.south_open_at(r, c))
            == g2.south_open_at(r, c) by {
            if !d.vertical() && r == d.canon_r(w0.row as int) && c == d.canon_c(w0.col as int) {
                assert(g1.wall_open_at(w0.row as int, w0.col as int, d));
                assert(g2.wall_open_at(w0.row as int, w0.col as int, d));
            }
        }
    }
}

/// The backtracking stack never holds the same position twice, and
/// never the current head position: a popped position can reappear
/// only after it has become the head again.
pub proof fn lemma_history_no_duplicates(w: Walker, g: Grid)
    requires
        inv(w, g),
    ensures
        forall|i: int, j: int| 0 <= i < j < w.history@.len() ==> w.history@[i] != w.history@[j],
        forall|i: int| 0 <= i < w.history@.len() ==> w.history@[i] != (w.row, w.col),
{
}

} // verus!
