//! The ways in which an operation on a maze can be refused.
use vstd::prelude::*;

verus! {

/// Why a maze operation did not take place. A refused operation leaves the
/// maze as it was.
#[derive(Clone, Copy, Debug, PartialEq, Eq, Structural)]
pub enum MazeError {
    /// The square `(x, y)` does not lie inside the maze.
    OutOfBounds { x: u32, y: u32 },
    /// The wall of `(x, y)` that faces `dir` is part of the outer boundary:
    /// breaking it would lead out of the maze.
    WallExitsMaze { x: u32, y: u32, dir: u32 },
    /// `dir` is none of the four directions.
    IllegalDirection { dir: u32 },
    /// Generation cannot start at `(x, y)`: no neighbour of it is free to be
    /// carved into.
    NoInitialDirection { x: u32, y: u32 },
}

} // verus!
