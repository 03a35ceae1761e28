use vstd::prelude::*;

use crate::MazeError;

verus! {

/// A compass direction, always interpreted relative to the cell it is
/// applied to: the neighbor of `(r, c)` toward `North` is `(r - 1, c)`,
/// toward `East` is `(r, c + 1)`, and so on.
#[derive(Clone, Copy, Debug, PartialEq, Eq, Structural)]
pub enum Direction {
    North,
    East,
    South,
    West,
}

impl Direction {
    /// Row offset of the neighbor in this direction.
    pub open spec fn dr(self) -> int {
        match self {
            Direction::North => -1,
            Direction::South => 1,
            Direction::East => 0,
            Direction::West => 0,
        }
    }

    /// Column offset of the neighbor in this direction.
    pub open spec fn dc(self) -> int {
        match self {
            Direction::West => -1,
            Direction::East => 1,
            Direction::North => 0,
            Direction::South => 0,
        }
    }

    /// Whether the wall toward this direction is a vertical one, i.e.
    /// stored in an east flag rather than a south flag.
    pub open spec fn vertical(self) -> bool {
        match self {
            Direction::East => true,
            Direction::West => true,
            Direction::North => false,
            Direction::South => false,
        }
    }

    /// Row of the cell whose own flag encodes the wall from `(r, _)`
    /// toward this direction.
    pub open spec fn canon_r(self, r: int) -> int {
        match self {
            Direction::North => r - 1,
            Direction::East => r,
            Direction::South => r,
            Direction::West => r,
        }
    }

    /// Column of the cell whose own flag encodes the wall from `(_, c)`
    /// toward this direction.
    pub open spec fn canon_c(self, c: int) -> int {
        match self {
            Direction::West => c - 1,
            Direction::East => c,
            Direction::South => c,
            Direction::North => c,
        }
    }
}

/// How many entries of a boolean sequence are `true`.
pub open spec fn count_true(s: Seq<bool>) -> nat
    decreases s.len(),
{
    if s.len() == 0 {
        0
    } else {
        count_true(s.drop_last()) + (if s.last() {
            1nat
        } else {
            0nat
        })
    }
}

/// Overwriting one entry moves the count by the difference of the old
/// and new values at that position.
pub proof fn lemma_count_true_update(s: Seq<bool>, i: int, b: bool)
    requires
        0 <= i < s.len(),
    ensures
        count_true(s.update(i, b)) + (if s[i] {
            1int
        } else {
            0int
        }) == count_true(s) + (if b {
            1int
        } else {
            0int
        }),
    decreases s.len(),
{
    let t = s.update(i, b);
    if i == s.len() - 1 {
        assert(t.drop_last() =~= s.drop_last());
    } else {
        assert(t.drop_last() =~= s.drop_last().update(i, b));
        lemma_count_true_update(s.drop_last(), i, b);
    }
}

/// A sequence without a single `true` entry counts zero.
pub proof fn lemma_count_true_zero(s: Seq<bool>)
    requires
        forall|i: int| 0 <= i < s.len() ==> !s[i],
    ensures
        count_true(s) == 0,
    decreases s.len(),
{
    if s.len() > 0 {
        lemma_count_true_zero(s.drop_last());
    }
}

/// A sequence whose every entry is `true` counts its full length.
pub proof fn lemma_count_true_full(s: Seq<bool>)
    requires
        forall|i: int| 0 <= i < s.len() ==> s[i],
    ensures
        count_true(s) == s.len(),
    decreases s.len(),
{
    if s.len() > 0 {
        lemma_count_true_full(s.drop_last());
    }
}

/// A row-major cell index stays below the cell count.
pub proof fn lemma_idx_in_range(rows: int, cols: int, r: int, c: int)
    requires
        0 <= r < rows,
        0 <= c < cols,
    ensures
        0 <= r * cols + c < rows * cols,
{
    assert(0 <= r * cols + c < rows * cols) by (nonlinear_arith)
        requires
            0 <= r < rows,
            0 <= c < cols,
    ;
}

/// Row-major indexing is injective on in-range coordinates.
pub proof fn lemma_idx_injective(cols: int, r1: int, c1: int, r2: int, c2: int)
    requires
        0 <= c1 < cols,
        0 <= c2 < cols,
        0 <= r1,
        0 <= r2,
    ensures
        (r1 * cols + c1 == r2 * cols + c2) <==> (r1 == r2 && c1 == c2),
{
    assert((r1 * cols + c1 == r2 * cols + c2) <==> (r1 == r2 && c1 == c2)) by (nonlinear_arith)
        requires
            0 <= c1 < cols,
            0 <= c2 < cols,
            0 <= r1,
            0 <= r2,
    ;
}

/// The rectangular grid of cells: a visited flag per cell, plus the two
/// wall flags per cell that encode the full mesh of interior walls.
/// `east_open[idx(r, c)]` is true when the wall between `(r, c)` and
/// `(r, c + 1)` has been removed; `south_open[idx(r, c)]` likewise for
/// the wall toward `(r + 1, c)`. The flags in the last column and the
/// last row stand for the outer boundary and stay false forever.
pub struct Grid {
    pub rows: usize,
    pub cols: usize,
    pub visited: Vec<bool>,
    pub east_open: Vec<bool>,
    pub south_open: Vec<bool>,
}

impl Grid {
    /// Row-major position of cell `(r, c)` in the flat vectors.
    pub open spec fn idx(self, r: int, c: int) -> int {
        r * self.cols + c
    }

    /// Whether `(r, c)` names a cell of this grid.
    pub open spec fn in_bounds(self, r: int, c: int) -> bool {
        0 <= r < self.rows && 0 <= c < self.cols
    }

    /// Whether the walk has reached cell `(r, c)`.
    pub open spec fn visited_at(self, r: int, c: int) -> bool {
        self.visited@[self.idx(r, c)]
    }

    /// Whether the wall east of `(r, c)` has been removed.
    pub open spec fn east_open_at(self, r: int, c: int) -> bool {
        self.east_open@[self.idx(r, c)]
    }

    /// Whether the wall south of `(r, c)` has been removed.
    pub open spec fn south_open_at(self, r: int, c: int) -> bool {
        self.south_open@[self.idx(r, c)]
    }

    /// Whether the wall between `(r, c)` and its neighbor toward `dir`
    /// has been removed, routed to the one flag that encodes that wall.
    pub open spec fn wall_open_at(self, r: int, c: int, dir: Direction) -> bool {
        if dir.vertical() {
            self.east_open_at(dir.canon_r(r), dir.canon_c(c))
        } else {
            self.south_open_at(dir.canon_r(r), dir.canon_c(c))
        }
    }

    /// How many walls have been removed so far.
    pub open spec fn removed_walls(self) -> nat {
        count_true(self.east_open@) + count_true(self.south_open@)
    }

    /// How many cells have been visited so far.
    pub open spec fn visited_cells(self) -> nat {
        count_true(self.visited@)
    }

    /// Well-formedness: positive dimensions, flat vectors of the right
    /// length, and solid boundary walls.
    pub open spec fn wf(self) -> bool {
        &&& self.rows >= 1
        &&& self.cols >= 1
        &&& self.rows * self.cols <= usize::MAX
        &&& self.visited@.len() == self.rows * self.cols
        &&& self.east_open@.len() == self.rows * self.cols
        &&& self.south_open@.len() == self.rows * self.cols
        &&& forall|r: int| 0 <= r < self.rows ==> !(#[trigger] self.east_open_at(r, self.cols - 1))
        &&& forall|c: int| 0 <= c < self.cols ==> !(#[trigger] self.south_open_at(self.rows - 1, c))
    }

    /// Create a grid with every cell unvisited and every wall present.
    /// Fails with `InvalidDimensions` when either dimension is zero.
    pub fn new(rows: usize, cols: usize) -> (res: Result<Grid, MazeError>)
        requires
            rows * cols <= usize::MAX,
        ensures
            (rows == 0 || cols == 0) <==> res is Err,
            res is Err ==> res->Err_0 == MazeError::InvalidDimensions,
            res is Ok ==> ({
                let g = res->Ok_0;
                &&& g.wf()
                &&& g.rows == rows
                &&& g.cols == cols
                &&& forall|r: int, c: int| g.in_bounds(r, c) ==> !(#[trigger] g.visited_at(r, c))
                &&& forall|i: int| 0 <= i < g.east_open@.len() ==> !g.east_open@[i]
                &&& forall|i: int| 0 <= i < g.south_open@.len() ==> !g.south_open@[i]
                &&& g.visited_cells() == 0
                &&& g.removed_walls() == 0
            }),
    {
        if rows == 0 || cols == 0 {
            return Err(MazeError::InvalidDimensions);
        }
        let n: usize = rows * cols;
        let g = Grid {
            rows,
            cols,
            visited: vec_of_false(n),
            east_open: vec_of_false(n),
            south_open: vec_of_false(n),
        };
        proof {
            lemma_count_true_zero(g.visited@);
            lemma_count_true_zero(g.east_open@);
            lemma_count_true_zero(g.south_open@);
            assert forall|r: int, c: int| g.in_bounds(r, c) implies !(#[trigger] g.visited_at(
                r,
                c,
            )) by {
                lemma_idx_in_range(rows as int, cols as int, r, c);
            }
            assert forall|r: int| 0 <= r < g.rows implies !(#[trigger] g.east_open_at(
                r,
                g.cols - 1,
            )) by {
                lemma_idx_in_range(rows as int, cols as int, r, cols - 1);
            }
            assert forall|c: int| 0 <= c < g.cols implies !(#[trigger] g.south_open_at(
                g.rows - 1,
                c,
            )) by {
                lemma_idx_in_range(rows as int, cols as int, rows - 1, c);
            }
        }
        Ok(g)
    }

    /// Whether cell `(r, c)` has been visited; `OutOfBounds` when the
    /// indices fall outside the grid.
    pub fn is_visited(&self, r: usize, c: usize) -> (res: Result<bool, MazeError>)
        requires
            self.wf(),
        ensures
            self.in_bounds(r as int, c as int) <==> res is Ok,
            res is Err ==> res->Err_0 == MazeError::OutOfBounds,
            res is Ok ==> res->Ok_0 == self.visited_at(r as int, c as int),
    {
        if r >= self.rows || c >= self.cols {
            return Err(MazeError::OutOfBounds);
        }
        proof {
            lemma_idx_in_range(self.rows as int, self.cols as int, r as int, c as int);
        }
        Ok(self.visited[r * self.cols + c])
    }

    /// Set the visited flag of `(r, c)`. Idempotent: a cell already
    /// visited is left exactly as it was, and no wall flag ever changes.
    pub fn mark_visited(&mut self, r: usize, c: usize) -> (res: Result<(), MazeError>)
        requires
            old(self).wf(),
        ensures
            final(self).wf(),
            old(self).in_bounds(r as int, c as int) <==> res is Ok,
            res is Err ==> res->Err_0 == MazeError::OutOfBounds && *final(self) == *old(self),
            res is Ok ==> ({
                &&& final(self).rows == old(self).rows
                &&& final(self).cols == old(self).cols
                &&& final(self).east_open@ == old(self).east_open@
                &&& final(self).south_open@ == old(self).south_open@
                &&& final(self).visited@ == old(self).visited@.update(
                    old(self).idx(r as int, c as int),
                    true,
                )
                &&& final(self).visited_at(r as int, c as int)
                &&& forall|r2: int, c2: int|
                    old(self).in_bounds(r2, c2) && !(r2 == r as int && c2 == c as int)
                        ==> #[trigger] final(self).visited_at(r2, c2) == old(self).visited_at(
                        r2,
                        c2,
                    )
                &&& old(self).visited_at(r as int, c as int) ==> *final(self) == *old(self)
                &&& final(self).visited_cells() == old(self).visited_cells() + (if old(
                    self,
                ).visited_at(r as int, c as int) {
                    0int
                } else {
                    1int
                })
            }),
    {
        if r >= self.rows || c >= self.cols {
            return Err(MazeError::OutOfBounds);
        }
        proof {
            lemma_idx_in_range(self.rows as int, self.cols as int, r as int, c as int);
        }
        let i: usize = r * self.cols + c;
        if self.visited[i] {
            proof {
                assert(self.visited@.update(i as int, true) =~= self.visited@);
            }
            return Ok(());
        }
        proof {
            lemma_count_true_update(self.visited@, i as int, true);
        }
        self.visited.set(i, true);
        proof {
            assert forall|rb: int| 0 <= rb < self.rows implies !(#[trigger] self.east_open_at(
                rb,
                self.cols - 1,
            )) by {
                assert(!old(self).east_open_at(rb, self.cols - 1));
            }
            assert forall|cb: int| 0 <= cb < self.cols implies !(#[trigger] self.south_open_at(
                self.rows - 1,
                cb,
            )) by {
                assert(!old(self).south_open_at(self.rows - 1, cb));
            }
            assert forall|r2: int, c2: int|
                old(self).in_bounds(r2, c2) && !(r2 == r as int && c2 == c as int) implies #[trigger] self.visited_at(
                r2,
                c2,
            ) == old(self).visited_at(r2, c2) by {
                lemma_idx_in_range(self.rows as int, self.cols as int, r2, c2);
                lemma_idx_injective(self.cols as int, r2, c2, r as int, c as int);
            }
        }
        Ok(())
    }

    /// Compute the in-grid neighbor of `(r, c)` toward `dir`, or
    /// `OutOfBounds` when `(r, c)` or that neighbor lies outside.
    pub fn neighbor(&self, r: usize, c: usize, dir: Direction) -> (res: Result<
        (usize, usize),
        MazeError,
    >)
        requires
            self.wf(),
        ensures
            (self.in_bounds(r as int, c as int) && self.in_bounds(
                r as int + dir.dr(),
                c as int + dir.dc(),
            )) <==> res is Ok,
            res is Err ==> res->Err_0 == MazeError::OutOfBounds,
            res is Ok ==> res->Ok_0.0 == r as int + dir.dr() && res->Ok_0.1 == c as int + dir.dc(),
    {
        if r >= self.rows || c >= self.cols {
            return Err(MazeError::OutOfBounds);
        }
        match dir {
            Direction::North => {
                if r == 0 {
                    Err(MazeError::OutOfBounds)
                } else {
                    Ok((r - 1, c))
                }
            },
            Direction::South => {
                if r + 1 >= self.rows {
                    Err(MazeError::OutOfBounds)
                } else {
                    Ok((r + 1, c))
                }
            },
            Direction::West => {
                if c == 0 {
                    Err(MazeError::OutOfBounds)
                } else {
                    Ok((r, c - 1))
                }
            },
            Direction::East => {
                if c + 1 >= self.cols {
                    Err(MazeError::OutOfBounds)
                } else {
                    Ok((r, c + 1))
                }
            },
        }
    }

    /// Whether a wall still stands between `(r, c)` and its neighbor
    /// toward `dir`; `OutOfBounds` when either cell lies outside.
    pub fn has_wall(&self, r: usize, c: usize, dir: Direction) -> (res: Result<bool, MazeError>)
        requires
            self.wf(),
        ensures
            (self.in_bounds(r as int, c as int) && self.in_bounds(
                r as int + dir.dr(),
                c as int + dir.dc(),
            )) <==> res is Ok,
            res is Err ==> res->Err_0 == MazeError::OutOfBounds,
            res is Ok ==> res->Ok_0 == !self.wall_open_at(r as int, c as int, dir),
    {
        let (nr, nc) = match self.neighbor(r, c, dir) {
            Ok(p) => p,
            Err(e) => {
                return Err(e);
            },
        };
        let cr: usize = if r < nr {
            r
        } else {
            nr
        };
        let cc: usize = if c < nc {
            c
        } else {
            nc
        };
        proof {
            lemma_idx_in_range(self.rows as int, self.cols as int, cr as int, cc as int);
        }
        let i: usize = cr * self.cols + cc;
        match dir {
            Direction::East | Direction::West => Ok(!self.east_open[i]),
            Direction::North | Direction::South => Ok(!self.south_open[i]),
        }
    }

    /// Remove the wall between `(r, c)` and its neighbor toward `dir`
    /// by clearing the one flag that encodes it; the companion
    /// representation (a neighbor's east or south flag) is the same
    /// flag, so the two views can never fall out of step. Idempotent,
    /// and `OutOfBounds` when either cell lies outside: a boundary wall
    /// can never be removed.
    pub fn remove_wall(&mut self, r: usize, c: usize, dir: Direction) -> (res: Result<
        (),
        MazeError,
    >)
        requires
            old(self).wf(),
        ensures
            final(self).wf(),
            (old(self).in_bounds(r as int, c as int) && old(self).in_bounds(
                r as int + dir.dr(),
                c as int + dir.dc(),
            )) <==> res is Ok,
            res is Err ==> res->Err_0 == MazeError::OutOfBounds && *final(self) == *old(self),
            res is Ok ==> ({
                &&& final(self).rows == old(self).rows
                &&& final(self).cols == old(self).cols
                &&& final(self).visited@ == old(self).visited@
                &&& final(self).wall_open_at(r as int, c as int, dir)
                &&& forall|r2: int, c2: int|
                    old(self).in_bounds(r2, c2) && !(dir.vertical() && r2 == dir.canon_r(r as int)
                        && c2 == dir.canon_c(c as int)) ==> #[trigger] final(self).east_open_at(
                        r2,
                        c2,
                    ) == old(self).east_open_at(r2, c2)
                &&& forall|r2: int, c2: int|
                    old(self).in_bounds(r2, c2) && !(!dir.vertical() && r2 == dir.canon_r(r as int)
                        && c2 == dir.canon_c(c as int)) ==> #[trigger] final(self).south_open_at(
                        r2,
                        c2,
                    ) == old(self).south_open_at(r2, c2)
                &&& old(self).wall_open_at(r as int, c as int, dir) ==> *final(self) == *old(self)
                &&& final(self).removed_walls() == old(self).removed_walls() + (if old(
                    self,
                ).wall_open_at(r as int, c as int, dir) {
                    0int
                } else {
                    1int
                })
            }),
    {
        let (nr, nc) = match self.neighbor(r, c, dir) {
            Ok(p) => p,
            Err(e) => {
                return Err(e);
            },
        };
        let cr: usize = if r < nr {
            r
        } else {
            nr
        };
        let cc: usize = if c < nc {
            c
        } else {
            nc
        };
        proof {
            lemma_idx_in_range(self.rows as int, self.cols as int, cr as int, cc as int);
        }
        let i: usize = cr * self.cols + cc;
        let vertical: bool = match dir {
            Direction::East | Direction::West => true,
            Direction::North | Direction::South => false,
        };
        if vertical {
            if self.east_open[i] {
                return Ok(());
            }
            proof {
                lemma_count_true_update(self.east_open@, i as int, true);
            }
            self.east_open.set(i, true);
        } else {
            if self.south_open[i] {
                return Ok(());
            }
            proof {
                lemma_count_true_update(self.south_open@, i as int, true);
            }
            self.south_open.set(i, true);
        }
        proof {
            let cri = dir.canon_r(r as int);
            let cci = dir.canon_c(c as int);
            assert forall|r2: int, c2: int|
                old(self).in_bounds(r2, c2) && !(dir.vertical() && r2 == cri && c2
                    == cci) implies #[trigger] self.east_open_at(r2, c2) == old(self).east_open_at(
                r2,
                c2,
            ) by {
                lemma_idx_in_range(self.rows as int, self.cols as int, r2, c2);
                lemma_idx_injective(self.cols as int, r2, c2, cri, cci);
            }
            assert forall|r2: int, c2: int|
                old(self).in_bounds(r2, c2) && !(!dir.vertical() && r2 == cri && c2
                    == cci) implies #[trigger] self.south_open_at(r2, c2) == old(
                self,
            ).south_open_at(r2, c2) by {
                lemma_idx_in_range(self.rows as int, self.cols as int, r2, c2);
                lemma_idx_injective(self.cols as int, r2, c2, cri, cci);
            }
            assert forall|rb: int| 0 <= rb < self.rows implies !(#[trigger] self.east_open_at(
                rb,
                self.cols - 1,
            )) by {
                lemma_idx_in_range(self.rows as int, self.cols as int, rb, self.cols - 1);
                lemma_idx_injective(self.cols as int, rb, self.cols - 1, cri, cci);
            }
            assert forall|cb: int| 0 <= cb < self.cols implies !(#[trigger] self.south_open_at(
                self.rows - 1,
                cb,
            )) by {
                lemma_idx_in_range(self.rows as int, self.cols as int, self.rows - 1, cb);
                lemma_idx_injective(self.cols as int, self.rows - 1, cb, cri, cci);
            }
        }
        Ok(())
    }
}

/// A vector of `n` entries, all false.
fn vec_of_false(n: usize) -> (v: Vec<bool>)
    ensures
        v@.len() == n,
        forall|i: int| 0 <= i < n ==> !v@[i],
{
    let mut v: Vec<bool> = Vec::new();
    let mut k: usize = 0;
    while k < n
        invariant
            k <= n,
            v@.len() == k,
            forall|i: int| 0 <= i < k ==> !v@[i],
        decreases n - k,
    {
        v.push(false);
        k = k + 1;
    }
    v
}

} // verus!
