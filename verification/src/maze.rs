//! Representation of a standard four-walled maze, with the operations that
//! carve it.
pub mod carver;
pub mod grid;
pub mod random;
pub mod reach;
pub mod render;
pub mod rooms;
pub mod square;

pub use self::grid::Grid;
pub use self::square::{Cell, Square};

use vstd::prelude::*;
use crate::constants::{DIR_EAST, DIR_NORTH, DIR_SOUTH, DIR_WEST};
use crate::error::MazeError;
use self::grid::{lemma_offset_in_range, lemma_offset_injective};

verus! {

/// A position in the maze: column `x` of row `y`.
#[derive(Clone, Copy, Debug)]
pub struct Coord {
    pub x: u32,
    pub y: u32,
}

/// A maze of `rows` by `cols` squares, stored row by row in `sq`.
#[derive(Clone, Debug)]
pub struct Maze {
    pub rows: u32,
    pub cols: u32,
    pub sq: Vec<Square>,
}

impl View for Maze {
    type V = Grid;

    open spec fn view(&self) -> Grid {
        Grid {
            rows: self.rows as int,
            cols: self.cols as int,
            cells: Seq::new(self.sq@.len(), |i: int| self.sq@[i]@),
        }
    }
}

impl Maze {
    /// The maze holds one square per position, and the number of squares fits
    /// in 32 bits.
    pub open spec fn wf(&self) -> bool {
        &&& self@.wf()
        &&& self@.rows * self@.cols <= u32::MAX
    }

    /// Creates a maze of `rows` by `cols` untouched squares.
    pub fn new(rows: u32, cols: u32) -> (maze: Maze)
        requires
            rows * cols <= u32::MAX,
        ensures
            maze.wf(),
            maze@ == Grid::fresh(rows as int, cols as int),
            maze@.all_fresh(),
            forall|x: int, y: int| maze@.in_bounds(x, y) ==> maze@.at(x, y) == Cell::fresh(),
    {
        let count: u32 = rows * cols;
        let mut sq: Vec<Square> = Vec::new();
        let mut i: u32 = 0;
        while i < count
            invariant
                i <= count,
                sq@.len() == i,
                forall|j: int| 0 <= j < i ==> sq@[j]@ == Cell::fresh(),
            decreases count - i,
        {
            sq.push(Square::new());
            i = i + 1;
        }
        let maze = Maze { rows, cols, sq };
        proof {
            assert(maze@.cells =~= Grid::fresh(rows as int, cols as int).cells);
            assert forall|x: int, y: int| maze@.in_bounds(x, y) implies maze@.at(x, y)
                == Cell::fresh() by {
                lemma_offset_in_range(rows as int, cols as int, x, y);
            }
        }
        maze
    }

    /// Returns the number of rows in the maze.
    pub fn get_rows(&self) -> (rows: u32)
        ensures
            rows == self@.rows,
    {
        self.rows
    }

    /// Returns the number of columns in the maze.
    pub fn get_cols(&self) -> (cols: u32)
        ensures
            cols == self@.cols,
    {
        self.cols
    }

    /// The position in `sq` of the square in column `x` of row `y`.
    pub fn get_offset(&self, x: u32, y: u32) -> (offset: usize)
        requires
            y * self@.cols + x <= u32::MAX,
        ensures
            offset == self@.offset(x as int, y as int),
    {
        (y as usize) * (self.cols as usize) + (x as usize)
    }

    /// Carves the square `(x, y)` towards `dir`, connecting it to its
    /// neighbour: the wall of `(x, y)` that faces `dir` is broken, and so is
    /// the wall of the neighbour that faces back. The square takes the region
    /// `id`; the neighbour takes it unless `carve_out` is set.
    ///
    /// The call is refused, and the maze left as it was, when `(x, y)` lies
    /// outside the maze, when `dir` is no direction, and when the wall is part
    /// of the outer boundary.
    pub fn carve(&mut self, x: u32, y: u32, dir: u32, id: i32, carve_out: bool) -> (result: Result<
        (),
        MazeError,
    >)
        requires
            old(self).wf(),
        ensures
            final(self).wf(),
            match old(self)@.carve_error(x, y, dir) {
                Some(e) => result == Err::<(), MazeError>(e) && *final(self) == *old(self),
                None => result is Ok && final(self)@ == old(self)@.carved(
                    x as int,
                    y as int,
                    dir as int,
                    id as int,
                    carve_out,
                ),
            },
    {
        if y >= self.rows {
            return Err(MazeError::OutOfBounds { x, y });
        }
        if x >= self.cols {
            return Err(MazeError::OutOfBounds { x, y });
        }
        // The position of the square on the other side of the wall
        let mut dest_x = x;
        let mut dest_y = y;
        let dest_dir;

        // Prevent breaking of walls that would lead out of the maze
        if dir == DIR_NORTH {
            if y == 0 {
                return Err(MazeError::WallExitsMaze { x, y, dir });
            }
            dest_y = dest_y - 1;
            dest_dir = DIR_SOUTH;
        } else if dir == DIR_SOUTH {
            if y == self.rows - 1 {
                return Err(MazeError::WallExitsMaze { x, y, dir });
            }
            dest_y = dest_y + 1;
            dest_dir = DIR_NORTH;
        } else if dir == DIR_EAST {
            if x == self.cols - 1 {
                return Err(MazeError::WallExitsMaze { x, y, dir });
            }
            dest_x = dest_x + 1;
            dest_dir = DIR_WEST;
        } else if dir == DIR_WEST {
            if x == 0 {
                return Err(MazeError::WallExitsMaze { x, y, dir });
            }
            dest_x = dest_x - 1;
            dest_dir = DIR_EAST;
        } else {
            return Err(MazeError::IllegalDirection { dir });
        }
        proof {
            lemma_offset_in_range(self.rows as int, self.cols as int, x as int, y as int);
            lemma_offset_in_range(self.rows as int, self.cols as int, dest_x as int, dest_y as int);
            if y * self.cols + x == dest_y * self.cols + dest_x {
                lemma_offset_injective(
                    self.cols as int,
                    x as int,
                    y as int,
                    dest_x as int,
                    dest_y as int,
                );
            }
        }
        // One square at a time: the origin first, then its neighbour.
        {
            let offset = self.get_offset(x, y);
            let square = &mut self.sq[offset];
            square.break_wall(dir);
            square.id = id;
        }

        {
            let offset = self.get_offset(dest_x, dest_y);
            let square = &mut self.sq[offset];
            square.break_wall(dest_dir);
            if !carve_out {
                square.id = id;
            }
        }

        proof {
            assert(self@.cells =~= old(self)@.carved(
                x as int,
                y as int,
                dir as int,
                id as int,
                carve_out,
            ).cells);
        }
        Ok(())
    }
}

} // verus!
