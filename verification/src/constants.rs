//! Direction indices and region identifiers shared by squares and mazes.
use vstd::prelude::*;

verus! {

/// Index of the wall facing north (towards smaller `y`).
pub const DIR_NORTH: u32 = 0;

/// Index of the wall facing south (towards larger `y`).
pub const DIR_SOUTH: u32 = 1;

/// Index of the wall facing east (towards larger `x`).
pub const DIR_EAST: u32 = 2;

/// Index of the wall facing west (towards smaller `x`).
pub const DIR_WEST: u32 = 3;

/// Number of walls of a square.
pub const NUM_DIRECTIONS: u32 = 4;

/// Region id of a square that belongs to a plain corridor.
pub const ID_MAZE_PATH: i32 = -1;

/// Region id of a square that nothing has carved yet.
pub const ID_UNCARVED: i32 = 0;

} // verus!
