//! A single square of the maze: four walls and a region id.
use vstd::prelude::*;
use crate::constants::{DIR_EAST, DIR_NORTH, DIR_SOUTH, DIR_WEST};

verus! {

/// The mathematical value of a [`Square`]: one flag per wall (`true` while the
/// wall stands) and the region id.
pub struct Cell {
    pub north: bool,
    pub south: bool,
    pub east: bool,
    pub west: bool,
    pub id: int,
}

impl Cell {
    /// A cell that nothing has touched: every wall stands, the id is 0.
    pub open spec fn fresh() -> Cell {
        Cell { north: true, south: true, east: true, west: true, id: 0 }
    }

    /// Whether the wall facing `dir` stands, with north as 0, south as 1, east
    /// as 2 and west as 3. A `dir` that is no direction has no wall.
    pub open spec fn wall(self, dir: int) -> bool {
        if dir == 0 {
            self.north
        } else if dir == 1 {
            self.south
        } else if dir == 2 {
            self.east
        } else if dir == 3 {
            self.west
        } else {
            false
        }
    }

    /// The cell with the wall facing `dir` set to `state`. A `dir` that is no
    /// direction changes nothing.
    pub open spec fn with_wall(self, dir: int, state: bool) -> Cell {
        if dir == 0 {
            Cell { north: state, ..self }
        } else if dir == 1 {
            Cell { south: state, ..self }
        } else if dir == 2 {
            Cell { east: state, ..self }
        } else if dir == 3 {
            Cell { west: state, ..self }
        } else {
            self
        }
    }

    /// The cell with its region id replaced.
    pub open spec fn with_id(self, id: int) -> Cell {
        Cell { id: id, ..self }
    }

    /// A cell is carved when at least one of its walls is gone.
    pub open spec fn carved(self) -> bool {
        !self.north || !self.south || !self.east || !self.west
    }

    /// A cell belongs to a room when its id is positive.
    pub open spec fn in_room(self) -> bool {
        self.id > 0
    }
}

/// A distinct location of the maze. It has four walls, indexed by direction,
/// any number of which may be carved, and the id of the region it belongs to.
#[derive(Clone, Copy, Debug)]
pub struct Square {
    pub wall_present: [bool; 4],
    pub id: i32,
}

impl View for Square {
    type V = Cell;

    open spec fn view(&self) -> Cell {
        Cell {
            north: self.wall_present@[0],
            south: self.wall_present@[1],
            east: self.wall_present@[2],
            west: self.wall_present@[3],
            id: self.id as int,
        }
    }
}

impl Square {
    /// Creates a square with all four walls standing and id 0.
    pub fn new() -> (sq: Square)
        ensures
            sq@ == Cell::fresh(),
    {
        Square { wall_present: [true, true, true, true], id: 0 }
    }

    /// Removes the wall facing `dir`. A `dir` that is no direction is ignored.
    pub fn break_wall(&mut self, dir: u32)
        ensures
            final(self)@ == old(self)@.with_wall(dir as int, false),
    {
        self.set_wall_state(dir, false);
    }

    /// Puts up the wall facing `dir`. A `dir` that is no direction is ignored.
    pub fn build_wall(&mut self, dir: u32)
        ensures
            final(self)@ == old(self)@.with_wall(dir as int, true),
    {
        self.set_wall_state(dir, true);
    }

    /// Whether the square is carved: at least one wall has been removed.
    pub fn is_carved(&self) -> (carved: bool)
        ensures
            carved == self@.carved(),
            carved <==> (!self@.wall(0) || !self@.wall(1) || !self@.wall(2) || !self@.wall(3)),
    {
        if !self.is_wall_present(DIR_NORTH) {
            return true;
        }
        if !self.is_wall_present(DIR_SOUTH) {
            return true;
        }
        if !self.is_wall_present(DIR_EAST) {
            return true;
        }
        if !self.is_wall_present(DIR_WEST) {
            return true;
        }
        false
    }

    /// Whether the square belongs to a room: its id is a positive room
    /// identifier, neither 0 nor the corridor id.
    pub fn is_part_of_room(&self) -> (in_room: bool)
        ensures
            in_room == self@.in_room(),
    {
        self.id > 0
    }

    /// Whether the wall facing `dir` stands. For a `dir` that is no direction
    /// the answer is `false`.
    pub fn is_wall_present(&self, dir: u32) -> (present: bool)
        ensures
            present == self@.wall(dir as int),
    {
        if dir == DIR_NORTH {
            self.wall_present[0]
        } else if dir == DIR_SOUTH {
            self.wall_present[1]
        } else if dir == DIR_EAST {
            self.wall_present[2]
        } else if dir == DIR_WEST {
            self.wall_present[3]
        } else {
            false
        }
    }

    /// Sets the wall facing `dir` to `state` (standing or gone). A `dir` that
    /// is no direction is ignored.
    pub fn set_wall_state(&mut self, dir: u32, state: bool)
        ensures
            final(self)@ == old(self)@.with_wall(dir as int, state),
    {
        if dir == DIR_NORTH {
            self.wall_present[0] = state;
        } else if dir == DIR_SOUTH {
            self.wall_present[1] = state;
        } else if dir == DIR_EAST {
            self.wall_present[2] = state;
        } else if dir == DIR_WEST {
            self.wall_present[3] = state;
        }
    }
}

} // verus!
