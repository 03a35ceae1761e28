use vstd::prelude::*;

use crate::MazeError;
use crate::grid::Direction;
use crate::grid::Grid;
use crate::grid::lemma_idx_in_range;
use crate::grid::lemma_idx_injective;

verus! {

/// What one call of `advance_one_step` did, reported to the consumer
/// (a renderer, a logger) so that it can react to the change.
#[derive(Clone, Copy, Debug, PartialEq, Eq, Structural)]
pub enum StepEvent {
    /// The walk moved forward: the wall between `from` and `to` was
    /// removed and the head now sits on `to`, freshly visited.
    WallRemoved { from_row: usize, from_col: usize, to_row: usize, to_col: usize },
    /// Dead end: the head moved back to the most recent open position.
    /// No wall and no visited flag changed.
    Backtracked { to_row: usize, to_col: usize },
    /// The history stack was empty at a dead end: generation complete.
    Finished,
}

/// The traversal head of the randomized depth-first walk: its current
/// position, the stack of positions it can still backtrack to, and
/// whether the walk has terminated.
pub struct Walker {
    pub row: usize,
    pub col: usize,
    pub history: Vec<(usize, usize)>,
    pub finished: bool,
}

/// Whether the walk at `(r, c)` may move toward `d`: the neighbor is
/// inside the grid and not yet visited.
pub open spec fn viable(g: Grid, r: int, c: int, d: Direction) -> bool {
    g.in_bounds(r + d.dr(), c + d.dc()) && !g.visited_at(r + d.dr(), c + d.dc())
}

/// Whether any of the four neighbors of `(r, c)` is still unvisited.
pub open spec fn has_unvisited_neighbor(g: Grid, r: int, c: int) -> bool {
    ||| viable(g, r, c, Direction::North)
    ||| viable(g, r, c, Direction::East)
    ||| viable(g, r, c, Direction::South)
    ||| viable(g, r, c, Direction::West)
}

/// The candidate directions at `(r, c)`, in the fixed compass order
/// north, east, south, west. Evaluated fresh at every step.
pub open spec fn spec_candidates(g: Grid, r: int, c: int) -> Seq<Direction> {
    (if viable(g, r, c, Direction::North) {
        seq![Direction::North]
    } else {
        Seq::empty()
    }) + (if viable(g, r, c, Direction::East) {
        seq![Direction::East]
    } else {
        Seq::empty()
    }) + (if viable(g, r, c, Direction::South) {
        seq![Direction::South]
    } else {
        Seq::empty()
    }) + (if viable(g, r, c, Direction::West) {
        seq![Direction::West]
    } else {
        Seq::empty()
    })
}

/// The candidate list holds exactly the viable directions: it is empty
/// precisely at a dead end, and every entry can be moved along.
pub proof fn lemma_candidates_sound(g: Grid, r: int, c: int)
    ensures
        spec_candidates(g, r, c).len() > 0 <==> has_unvisited_neighbor(g, r, c),
        forall|k: int|
            0 <= k < spec_candidates(g, r, c).len() ==> viable(
                g,
                r,
                c,
                #[trigger] spec_candidates(g, r, c)[k],
            ),
{
}

/// Whether `(r, c)` sits somewhere on the backtracking stack.
pub open spec fn on_stack(w: Walker, r: int, c: int) -> bool {
    exists|i: int|
        0 <= i < w.history@.len() && (#[trigger] w.history@[i]).0 == r && w.history@[i].1 == c
}

/// Whether the walk may still return to `(r, c)`: it is the current
/// head of an unfinished walk, or it lies on the stack.
pub open spec fn pending(w: Walker, r: int, c: int) -> bool {
    (!w.finished && r == w.row && c == w.col) || on_stack(w, r, c)
}

/// Every visited cell the walk can no longer return to has no
/// unvisited neighbor left: the walk never abandons work.
pub open spec fn stack_closed(w: Walker, g: Grid) -> bool {
    forall|r: int, c: int|
        g.in_bounds(r, c) && #[trigger] g.visited_at(r, c) && !pending(w, r, c)
            ==> !has_unvisited_neighbor(g, r, c)
}

/// A removed wall always joins two visited cells.
pub open spec fn open_walls_between_visited(g: Grid) -> bool {
    &&& forall|r: int, c: int|
        g.in_bounds(r, c) && g.in_bounds(r, c + 1) && #[trigger] g.east_open_at(r, c)
            ==> g.visited_at(r, c) && g.visited_at(r, c + 1)
    &&& forall|r: int, c: int|
        g.in_bounds(r, c) && g.in_bounds(r + 1, c) && #[trigger] g.south_open_at(r, c)
            ==> g.visited_at(r, c) && g.visited_at(r + 1, c)
}

/// The joint invariant of a walker and the grid it is generating:
/// holds when the pair is constructed, is preserved by every step, and
/// makes every intermediate state a valid, inspectable maze.
pub open spec fn inv(w: Walker, g: Grid) -> bool {
    &&& g.wf()
    &&& g.in_bounds(w.row as int, w.col as int)
    &&& g.visited_at(w.row as int, w.col as int)
    &&& forall|i: int|
        0 <= i < w.history@.len() ==> g.in_bounds(
            (#[trigger] w.history@[i]).0 as int,
            w.history@[i].1 as int,
        )
    &&& forall|i: int|
        0 <= i < w.history@.len() ==> g.visited_at(
            (#[trigger] w.history@[i]).0 as int,
            w.history@[i].1 as int,
        )
    &&& forall|i: int, j: int|
        0 <= i < j < w.history@.len() ==> #[trigger] w.history@[i] != #[trigger] w.history@[j]
    &&& forall|i: int| 0 <= i < w.history@.len() ==> #[trigger] w.history@[i] != (w.row, w.col)
    &&& w.finished ==> w.history@.len() == 0 && !has_unvisited_neighbor(
        g,
        w.row as int,
        w.col as int,
    )
    &&& stack_closed(w, g)
    &&& open_walls_between_visited(g)
    &&& g.removed_walls() + 1 == g.visited_cells()
}

/// One forward move: the head stepped from `w0`'s position toward `d`,
/// the wall between the two cells fell, the new cell was marked
/// visited, and the old position went onto the stack.
pub open spec fn forward_step(
    w0: Walker,
    g0: Grid,
    d: Direction,
    w1: Walker,
    g1: Grid,
    ev: StepEvent,
) -> bool {
    let nr = w0.row + d.dr();
    let nc = w0.col + d.dc();
    &&& w1.row as int == nr
    &&& w1.col as int == nc
    &&& w1.history@ == w0.history@.push((w0.row, w0.col))
    &&& !w1.finished
    &&& ev == StepEvent::WallRemoved {
        from_row: w0.row,
        from_col: w0.col,
        to_row: w1.row,
        to_col: w1.col,
    }
    &&& g1.rows == g0.rows
    &&& g1.cols == g0.cols
    &&& g1.visited@ == g0.visited@.update(g0.idx(nr, nc), true)
    &&& g1.wall_open_at(w0.row as int, w0.col as int, d)
    &&& forall|r2: int, c2: int|
        g0.in_bounds(r2, c2) && !(d.vertical() && r2 == d.canon_r(w0.row as int) && c2 == d.canon_c(
            w0.col as int,
        )) ==> #[trigger] g1.east_open_at(r2, c2) == g0.east_open_at(r2, c2)
    &&& forall|r2: int, c2: int|
        g0.in_bounds(r2, c2) && !(!d.vertical() && r2 == d.canon_r(w0.row as int) && c2
            == d.canon_c(w0.col as int)) ==> #[trigger] g1.south_open_at(r2, c2)
            == g0.south_open_at(r2, c2)
    &&& g1.visited_cells() == g0.visited_cells() + 1
    &&& g1.removed_walls() == g0.removed_walls() + 1
}

/// One backtrack: the head moved to the top of the stack, which was
/// popped; no wall and no visited flag changed.
pub open spec fn backtrack_step(w0: Walker, g0: Grid, w1: Walker, g1: Grid, ev: StepEvent) -> bool {
    &&& g1 == g0
    &&& w1.row == w0.history@.last().0
    &&& w1.col == w0.history@.last().1
    &&& w1.history@ == w0.history@.drop_last()
    &&& !w1.finished
    &&& ev == StepEvent::Backtracked { to_row: w1.row, to_col: w1.col }
}

/// Termination: a dead end with an empty stack; nothing changed but
/// the finished flag.
pub open spec fn finish_step(w0: Walker, g0: Grid, w1: Walker, g1: Grid, ev: StepEvent) -> bool {
    &&& g1 == g0
    &&& w1.row == w0.row
    &&& w1.col == w0.col
    &&& w1.history@ == w0.history@
    &&& w1.finished
    &&& ev == StepEvent::Finished
}

/// The whole step relation of one tick on an unfinished walk, with
/// the random draw `pick`: a forward move along the candidate at
/// `pick` modulo the number of candidates, a backtrack at a dead end,
/// or termination when the stack is empty too.
pub open spec fn step_taken(
    w0: Walker,
    g0: Grid,
    pick: int,
    w1: Walker,
    g1: Grid,
    ev: StepEvent,
) -> bool {
    let cands = spec_candidates(g0, w0.row as int, w0.col as int);
    if cands.len() > 0 {
        forward_step(w0, g0, cands[pick % cands.len() as int], w1, g1, ev)
    } else if w0.history@.len() > 0 {
        backtrack_step(w0, g0, w1, g1, ev)
    } else {
        finish_step(w0, g0, w1, g1, ev)
    }
}

/// Whether the walk at `(r, c)` may move toward `d`, computed.
fn dir_viable(g: &Grid, r: usize, c: usize, d: Direction) -> (b: bool)
    requires
        g.wf(),
        g.in_bounds(r as int, c as int),
    ensures
        b == viable(*g, r as int, c as int, d),
{
    match g.neighbor(r, c, d) {
        Ok((nr, nc)) => match g.is_visited(nr, nc) {
            Ok(v) => !v,
            Err(_) => false,
        },
        Err(_) => false,
    }
}

/// The candidate directions at `(r, c)`: the in-bounds, unvisited
/// neighbors, in the fixed compass order north, east, south, west.
pub fn candidate_directions(g: &Grid, r: usize, c: usize) -> (v: Vec<Direction>)
    requires
        g.wf(),
        g.in_bounds(r as int, c as int),
    ensures
        v@ == spec_candidates(*g, r as int, c as int),
{
    let mut v: Vec<Direction> = Vec::new();
    if dir_viable(g, r, c, Direction::North) {
        v.push(Direction::North);
    }
    if dir_viable(g, r, c, Direction::East) {
        v.push(Direction::East);
    }
    if dir_viable(g, r, c, Direction::South) {
        v.push(Direction::South);
    }
    if dir_viable(g, r, c, Direction::West) {
        v.push(Direction::West);
    }
    proof {
        assert(v@ =~= spec_candidates(*g, r as int, c as int));
    }
    v
}

impl Walker {
    /// Build the grid and the walker together: all walls present, all
    /// cells unvisited but the start, the head on the start, the stack
    /// empty. Fails with `InvalidDimensions` when a dimension is zero
    /// and with `OutOfBounds` when the start lies outside the grid.
    pub fn new(rows: usize, cols: usize, start_row: usize, start_col: usize) -> (res: Result<
        (Walker, Grid),
        MazeError,
    >)
        requires
            rows * cols <= usize::MAX,
        ensures
            (rows == 0 || cols == 0) ==> res == Result::<(Walker, Grid), MazeError>::Err(
                MazeError::InvalidDimensions,
            ),
            (rows >= 1 && cols >= 1 && !(start_row < rows && start_col < cols)) ==> res
                == Result::<(Walker, Grid), MazeError>::Err(MazeError::OutOfBounds),
            (rows >= 1 && cols >= 1 && start_row < rows && start_col < cols) <==> res is Ok,
            res is Ok ==> ({
                let (w, g) = res->Ok_0;
                &&& inv(w, g)
                &&& w.row == start_row
                &&& w.col == start_col
                &&& w.history@.len() == 0
                &&& !w.finished
                &&& g.rows == rows
                &&& g.cols == cols
                &&& g.visited_at(start_row as int, start_col as int)
                &&& forall|r: int, c: int|
                    g.in_bounds(r, c) && !(r == start_row as int && c == start_col as int)
                        ==> !(#[trigger] g.visited_at(r, c))
                &&& forall|i: int| 0 <= i < g.east_open@.len() ==> !g.east_open@[i]
                &&& forall|i: int| 0 <= i < g.south_open@.len() ==> !g.south_open@[i]
                &&& g.visited_cells() == 1
                &&& g.removed_walls() == 0
            }),
    {
        let mut grid = match Grid::new(rows, cols) {
            Ok(g) => g,
            Err(e) => {
                return Err(e);
            },
        };
        if start_row >= rows || start_col >= cols {
            return Err(MazeError::OutOfBounds);
        }
        match grid.mark_visited(start_row, start_col) {
            Ok(_) => (),
            Err(_) => {
                return Err(MazeError::OutOfBounds);
            },
        };
        let walker = Walker { row: start_row, col: start_col, history: Vec::new(), finished: false };
        proof {
            assert forall|r: int, c: int|
                grid.in_bounds(r, c) && #[trigger] grid.visited_at(r, c) && !pending(
                    walker,
                    r,
                    c,
                ) implies !has_unvisited_neighbor(grid, r, c) by {
                assert(r == start_row as int && c == start_col as int);
                assert(pending(walker, r, c));
            }
            assert forall|r: int, c: int|
                grid.in_bounds(r, c) && grid.in_bounds(r, c + 1) && #[trigger] grid.east_open_at(
                    r,
                    c,
                ) implies grid.visited_at(r, c) && grid.visited_at(r, c + 1) by {
                lemma_idx_in_range(rows as int, cols as int, r, c);
            }
            assert forall|r: int, c: int|
                grid.in_bounds(r, c) && grid.in_bounds(r + 1, c) && #[trigger] grid.south_open_at(
                    r,
                    c,
                ) implies grid.visited_at(r, c) && grid.visited_at(r + 1, c) by {
                lemma_idx_in_range(rows as int, cols as int, r, c);
            }
            assert(grid.visited_cells() == 1);
            assert(grid.removed_walls() == 0);
            assert(inv(walker, grid));
        }
        Ok((walker, grid))
    }

    /// One step of the walk, with the random draw handed in as `pick`:
    /// the chosen candidate is the one at `pick` modulo the number of
    /// candidates, so the outcome is a function of the state and `pick`
    /// alone. Moves forward through a wall when an unvisited neighbor
    /// exists, backtracks at a dead end, finishes when the stack is
    /// empty too, and signals `LogicError` when called after that.
    pub fn advance_with_choice(&mut self, grid: &mut Grid, pick: usize) -> (res: Result<
        StepEvent,
        MazeError,
    >)
        requires
            inv(*old(self), *old(grid)),
        ensures
            inv(*final(self), *final(grid)),
            old(self).finished <==> res is Err,
            res is Err ==> res->Err_0 == MazeError::LogicError && *final(self) == *old(self)
                && *final(grid) == *old(grid),
            ({
                let w0 = *old(self);
                let g0 = *old(grid);
                let cands = spec_candidates(g0, w0.row as int, w0.col as int);
                &&& (!w0.finished && cands.len() > 0) ==> res is Ok && forward_step(
                    w0,
                    g0,
                    cands[pick as int % cands.len() as int],
                    *final(self),
                    *final(grid),
                    res->Ok_0,
                )
                &&& (!w0.finished && cands.len() == 0 && w0.history@.len() > 0) ==> res is Ok
                    && backtrack_step(w0, g0, *final(self), *final(grid), res->Ok_0)
                &&& (!w0.finished && cands.len() == 0 && w0.history@.len() == 0) ==> res is Ok
                    && finish_step(w0, g0, *final(self), *final(grid), res->Ok_0)
                &&& !w0.finished ==> res is Ok && step_taken(
                    w0,
                    g0,
                    pick as int,
                    *final(self),
                    *final(grid),
                    res->Ok_0,
                )
            }),
    {
        if self.finished {
            return Err(MazeError::LogicError);
        }
        let ghost w0 = *self;
        let ghost g0 = *grid;
        let cands = candidate_directions(grid, self.row, self.col);
        proof {
            lemma_candidates_sound(g0, w0.row as int, w0.col as int);
        }
        if cands.len() > 0 {
            let k: usize = pick % cands.len();
            let d: Direction = cands[k];
            let from_r = self.row;
            let from_c = self.col;
            proof {
                assert(viable(g0, from_r as int, from_c as int, d));
            }
            let (nr, nc) = match grid.neighbor(from_r, from_c, d) {
                Ok(p) => p,
                Err(_) => {
                    proof {
                        assert(false);
                    }
                    (0, 0)
                },
            };
            proof {
                // the wall toward an unvisited cell is still closed:
                // were it open, both of its endpoints would be visited
                assert(!g0.wall_open_at(from_r as int, from_c as int, d)) by {
                    if g0.wall_open_at(from_r as int, from_c as int, d) {
                        match d {
                            Direction::East => {
                                assert(g0.east_open_at(from_r as int, from_c as int));
                            },
                            Direction::West => {
                                assert(g0.east_open_at(from_r as int, from_c as int - 1));
                            },
                            Direction::South => {
                                assert(g0.south_open_at(from_r as int, from_c as int));
                            },
                            Direction::North => {
                                assert(g0.south_open_at(from_r as int - 1, from_c as int));
                            },
                        }
                    }
                }
            }
            match grid.mark_visited(nr, nc) {
                Ok(_) => (),
                Err(_) => {
                    proof {
                        assert(false);
                    }
                },
            };
            match grid.remove_wall(from_r, from_c, d) {
                Ok(_) => (),
                Err(_) => {
                    proof {
                        assert(false);
                    }
                },
            };
            self.history.push((from_r, from_c));
            self.row = nr;
            self.col = nc;
            proof {
                let nri = nr as int;
                let nci = nc as int;
                lemma_idx_in_range(g0.rows as int, g0.cols as int, nri, nci);
                // visited flags only grew
                assert forall|r2: int, c2: int|
                    grid.in_bounds(r2, c2) && g0.visited_at(r2, c2) implies #[trigger] grid.visited_at(
                    r2,
                    c2,
                ) by {
                    lemma_idx_in_range(g0.rows as int, g0.cols as int, r2, c2);
                    lemma_idx_injective(g0.cols as int, r2, c2, nri, nci);
                }
                // the new position was unvisited, so it sat neither on
                // the stack nor anywhere the old walker could reach
                assert forall|i: int| 0 <= i < self.history@.len() implies #[trigger] self.history@[i]
                    != (self.row, self.col) by {
                    if i < w0.history@.len() {
                        assert(w0.history@[i] == self.history@[i]);
                        assert(g0.visited_at(w0.history@[i].0 as int, w0.history@[i].1 as int));
                    }
                }
                // the stack stays duplicate-free
                assert forall|i: int, j: int| 0 <= i < j < self.history@.len() implies self.history@[i]
                    != self.history@[j] by {
                    if j < w0.history@.len() {
                        assert(w0.history@[i] == self.history@[i]);
                        assert(w0.history@[j] == self.history@[j]);
                    } else {
                        assert(self.history@[j] == (w0.row, w0.col));
                        assert(w0.history@[i] == self.history@[i]);
                    }
                }
                // no abandoned cell gained an unvisited neighbor
                assert forall|r2: int, c2: int|
                    grid.in_bounds(r2, c2) && #[trigger] grid.visited_at(r2, c2) && !pending(
                        *self,
                        r2,
                        c2,
                    ) implies !has_unvisited_neighbor(*grid, r2, c2) by {
                    if r2 == nri && c2 == nci {
                        assert(pending(*self, r2, c2));
                    } else {
                        lemma_idx_in_range(g0.rows as int, g0.cols as int, r2, c2);
                        lemma_idx_injective(g0.cols as int, r2, c2, nri, nci);
                        assert(g0.visited_at(r2, c2));
                        if pending(w0, r2, c2) {
                            if !w0.finished && r2 == w0.row && c2 == w0.col {
                                assert(self.history@[self.history@.len() - 1] == (w0.row, w0.col));
                                assert(on_stack(*self, r2, c2));
                            } else {
                                let i = choose|i: int|
                                    0 <= i < w0.history@.len() && (#[trigger] w0.history@[i]).0
                                        == r2 && w0.history@[i].1 == c2;
                                assert(self.history@[i] == w0.history@[i]);
                                assert(on_stack(*self, r2, c2));
                            }
                            assert(false);
                        }
                        assert(!has_unvisited_neighbor(g0, r2, c2));
                        assert(!viable(*grid, r2, c2, Direction::North));
                        assert(!viable(*grid, r2, c2, Direction::East));
                        assert(!viable(*grid, r2, c2, Direction::South));
                        assert(!viable(*grid, r2, c2, Direction::West));
                    }
                }
                // every open wall still joins two visited cells
                assert forall|r2: int, c2: int|
                    grid.in_bounds(r2, c2) && grid.in_bounds(r2, c2 + 1)
                        && #[trigger] grid.east_open_at(r2, c2) implies grid.visited_at(r2, c2)
                    && grid.visited_at(r2, c2 + 1) by {
                    if d.vertical() && r2 == d.canon_r(from_r as int) && c2 == d.canon_c(
                        from_c as int,
                    ) {
                        assert(grid.visited_at(from_r as int, from_c as int));
                        assert(grid.visited_at(nri, nci));
                    } else {
                        assert(grid.east_open_at(r2, c2) == g0.east_open_at(r2, c2));
                        assert(g0.visited_at(r2, c2) && g0.visited_at(r2, c2 + 1));
                    }
                }
                assert forall|r2: int, c2: int|
                    grid.in_bounds(r2, c2) && grid.in_bounds(r2 + 1, c2)
                        && #[trigger] grid.south_open_at(r2, c2) implies grid.visited_at(r2, c2)
                    && grid.visited_at(r2 + 1, c2) by {
                    if !d.vertical() && r2 == d.canon_r(from_r as int) && c2 == d.canon_c(
                        from_c as int,
                    ) {
                        assert(grid.visited_at(from_r as int, from_c as int));
                        assert(grid.visited_at(nri, nci));
                    } else {
                        assert(grid.south_open_at(r2, c2) == g0.south_open_at(r2, c2));
                        assert(g0.visited_at(r2, c2) && g0.visited_at(r2 + 1, c2));
                    }
                }
                assert(inv(*self, *grid));
                assert(forward_step(
                    w0,
                    g0,
                    d,
                    *self,
                    *grid,
                    StepEvent::WallRemoved {
                        from_row: from_r,
                        from_col: from_c,
                        to_row: nr,
                        to_col: nc,
                    },
                ));
            }
            Ok(StepEvent::WallRemoved { from_row: from_r, from_col: from_c, to_row: nr, to_col: nc })
        } else if self.history.len() > 0 {
            let p: (usize, usize) = match self.history.pop() {
                Some(p) => p,
                None => {
                    proof {
                        assert(false);
                    }
                    (0, 0)
                },
            };
            self.row = p.0;
            self.col = p.1;
            proof {
                assert(p == w0.history@.last());
                assert forall|r2: int, c2: int|
                    grid.in_bounds(r2, c2) && #[trigger] grid.visited_at(r2, c2) && !pending(
                        *self,
                        r2,
                        c2,
                    ) implies !has_unvisited_neighbor(*grid, r2, c2) by {
                    if r2 == w0.row && c2 == w0.col {
                        // the dead end the head just left
                        assert(!has_unvisited_neighbor(g0, r2, c2));
                    } else if pending(w0, r2, c2) {
                        let i = choose|i: int|
                            0 <= i < w0.history@.len() && (#[trigger] w0.history@[i]).0 == r2
                                && w0.history@[i].1 == c2;
                        if i < w0.history@.len() - 1 {
                            assert(self.history@[i] == w0.history@[i]);
                            assert(on_stack(*self, r2, c2));
                        } else {
                            assert(w0.history@[i] == p);
                        }
                        assert(false);
                    }
                }
                assert(inv(*self, *grid));
            }
            Ok(StepEvent::Backtracked { to_row: p.0, to_col: p.1 })
        } else {
            self.finished = true;
            proof {
                assert forall|r2: int, c2: int|
                    grid.in_bounds(r2, c2) && #[trigger] grid.visited_at(r2, c2) && !pending(
                        *self,
                        r2,
                        c2,
                    ) implies !has_unvisited_neighbor(*grid, r2, c2) by {
                    if r2 == w0.row && c2 == w0.col {
                        assert(!has_unvisited_neighbor(g0, r2, c2));
                    } else if pending(w0, r2, c2) {
                        assert(on_stack(w0, r2, c2));
                        assert(on_stack(*self, r2, c2));
                        assert(false);
                    }
                }
                assert(inv(*self, *grid));
            }
            Ok(StepEvent::Finished)
        }
    }

    /// Whether the walk has terminated: no step may follow a true
    /// answer.
    pub fn is_finished(&self) -> (b: bool)
        ensures
            b == self.finished,
    {
        self.finished
    }

    /// Where the traversal head currently sits.
    pub fn position(&self) -> (p: (usize, usize))
        ensures
            p.0 == self.row,
            p.1 == self.col,
    {
        (self.row, self.col)
    }

    /// One tick of the generation: like `advance_with_choice`, with the
    /// candidate chosen uniformly at random among the directions that
    /// are viable at this very call.
    pub fn advance_one_step(&mut self, grid: &mut Grid) -> (res: Result<StepEvent, MazeError>)
        requires
            inv(*old(self), *old(grid)),
        ensures
            inv(*final(self), *final(grid)),
            old(self).finished <==> res is Err,
            res is Err ==> res->Err_0 == MazeError::LogicError && *final(self) == *old(self)
                && *final(grid) == *old(grid),
            ({
                let w0 = *old(self);
                let g0 = *old(grid);
                let cands = spec_candidates(g0, w0.row as int, w0.col as int);
                &&& (!w0.finished && cands.len() > 0) ==> res is Ok && exists|k: int|
                    0 <= k < cands.len() && forward_step(
                        w0,
                        g0,
                        #[trigger] cands[k],
                        *final(self),
                        *final(grid),
                        res->Ok_0,
                    )
                &&& (!w0.finished && cands.len() == 0 && w0.history@.len() > 0) ==> res is Ok
                    && backtrack_step(w0, g0, *final(self), *final(grid), res->Ok_0)
                &&& (!w0.finished && cands.len() == 0 && w0.history@.len() == 0) ==> res is Ok
                    && finish_step(w0, g0, *final(self), *final(grid), res->Ok_0)
            }),
    {
        let ghost w0 = *self;
        let ghost g0 = *grid;
        if self.finished {
            return Err(MazeError::LogicError);
        }
        let n: usize = candidate_directions(grid, self.row, self.col).len();
        let pick: usize = if n > 0 {
            crate::rng::random_below(n)
        } else {
            0
        };
        let res = self.advance_with_choice(grid, pick);
        proof {
            let cands = spec_candidates(g0, w0.row as int, w0.col as int);
            if cands.len() > 0 {
                let k = pick as int % cands.len() as int;
                assert(0 <= k < cands.len());
                assert(forward_step(w0, g0, cands[k], *self, *grid, res->Ok_0));
            }
        }
        res
    }
}

} // verus!
