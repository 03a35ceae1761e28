use vstd::prelude::*;

pub mod grid;
pub mod laws;
pub mod rng;
pub mod walker;

verus! {

/// Errors surfaced by the maze core: all of them signal a caller
/// contract violation, never a transient condition.
#[derive(Clone, Copy, Debug, PartialEq, Eq, Structural)]
pub enum MazeError {
    /// A grid was requested with zero rows or zero columns.
    InvalidDimensions,
    /// An index (or a supplied start position) lies outside the grid.
    OutOfBounds,
    /// `advance_one_step` was called after the walk had finished.
    LogicError,
}

} // verus!
