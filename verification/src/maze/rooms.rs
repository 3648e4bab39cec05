//! The room placer: rectangular rooms, kept apart from each other and from
//! the outer boundary, carved before the corridors are grown.
use vstd::prelude::*;
use rand::rngs::StdRng;
use crate::constants::{DIR_EAST, DIR_NORTH, DIR_SOUTH, DIR_WEST};
use crate::maze::grid::{
    lemma_carved_at, lemma_offset_in_range, lemma_offset_injective, lemma_offset_surjective, Grid,
};
use crate::maze::random::random_in_range;
use crate::maze::square::Cell;
use crate::maze::Maze;

verus! {

/// A room: the rectangle of `width` by `height` cells whose top left cell is
/// `(x, y)`, and the id that its cells carry.
pub struct Room {
    pub x: int,
    pub y: int,
    pub width: int,
    pub height: int,
    pub id: int,
}

impl Room {
    /// Whether `(x, y)` is a cell of the room.
    pub open spec fn contains(self, x: int, y: int) -> bool {
        self.x <= x < self.x + self.width && self.y <= y < self.y + self.height
    }

    /// Whether `(x, y)` is a cell of the room or of the margin of one cell
    /// around it.
    pub open spec fn margin_contains(self, x: int, y: int) -> bool {
        self.x - 1 <= x < self.x + self.width + 1 && self.y - 1 <= y < self.y + self.height + 1
    }

    /// Whether the room lies inside `grid`.
    pub open spec fn inside(self, grid: Grid) -> bool {
        &&& 0 <= self.x
        &&& 0 <= self.y
        &&& 0 <= self.width
        &&& 0 <= self.height
        &&& self.x + self.width <= grid.cols
        &&& self.y + self.height <= grid.rows
    }

    /// Whether the room together with its margin lies inside `grid`.
    pub open spec fn fits(self, grid: Grid) -> bool {
        &&& 1 <= self.x
        &&& 1 <= self.y
        &&& 0 <= self.width
        &&& 0 <= self.height
        &&& self.x + self.width + 1 <= grid.cols
        &&& self.y + self.height + 1 <= grid.rows
    }

    /// Whether cell `(x, y)` of the room has had its turn when the carving of
    /// the room, which goes column by column and down each column, stands
    /// before cell `(px, py)`.
    pub open spec fn done(self, x: int, y: int, px: int, py: int) -> bool {
        self.contains(x, y) && (x < px || (x == px && y < py))
    }

    /// The value of cell `(x, y)`, which was `c`, when the carving of the
    /// room stands before cell `(px, py)`: a wall towards another cell of the
    /// room is gone once one of the two cells has had its turn, and a cell
    /// carries the id of the room once it has had its turn or has lost a
    /// wall.
    pub open spec fn carving_cell(self, c: Cell, x: int, y: int, px: int, py: int) -> Cell {
        if self.contains(x, y) {
            let above = self.y < y && self.done(x, y - 1, px, py);
            let below = y < self.y + self.height - 1 && self.done(x, y, px, py);
            let right = x < self.x + self.width - 1 && self.done(x, y, px, py);
            let left = self.x < x && self.done(x - 1, y, px, py);
            let own = self.done(x, y, px, py);
            Cell {
                north: c.north && !above,
                south: c.south && !below,
                east: c.east && !right,
                west: c.west && !left,
                id: if above || left || own {
                    self.id
                } else {
                    c.id
                },
            }
        } else {
            c
        }
    }

    /// The value of cell `(x, y)`, which was `c`, once the room is carved:
    /// inside the room the walls towards other cells of the room are gone and
    /// the cell carries the id of the room. The walls around the room stand
    /// as before, and so does every cell outside it.
    pub open spec fn carved_cell(self, c: Cell, x: int, y: int) -> Cell {
        if self.contains(x, y) {
            Cell {
                north: c.north && y == self.y,
                south: c.south && y == self.y + self.height - 1,
                east: c.east && x == self.x + self.width - 1,
                west: c.west && x == self.x,
                id: self.id,
            }
        } else {
            c
        }
    }
}

impl Grid {
    /// The grid with cell `(x, y)` marked with the region `id`.
    pub open spec fn marked(self, x: int, y: int, id: int) -> Grid {
        Grid {
            rows: self.rows,
            cols: self.cols,
            cells: self.cells.update(self.offset(x, y), self.at(x, y).with_id(id)),
        }
    }

    /// Whether a cell of `room` or of its margin is part of a room already.
    pub open spec fn overlaps(self, room: Room) -> bool {
        exists|x: int, y: int| #![trigger self.at(x, y)]
            room.margin_contains(x, y) && self.at(x, y).in_room()
    }

    /// The grid with `room` carved into it: each cell becomes what
    /// `Room::carved_cell` makes of it.
    #[verifier::opaque]
    pub open spec fn with_room(self, room: Room) -> Grid {
        Grid {
            rows: self.rows,
            cols: self.cols,
            cells: Seq::new(
                self.cells.len(),
                |i: int| room.carved_cell(self.cells[i], i % self.cols, i / self.cols),
            ),
        }
    }

    /// The grid with the rooms of `rooms` carved into it one after the other.
    pub open spec fn with_rooms(self, rooms: Seq<Room>) -> Grid
        decreases rooms.len(),
    {
        if rooms.len() == 0 {
            self
        } else {
            self.with_rooms(rooms.drop_last()).with_room(rooms.last())
        }
    }

    /// Whether room `i` of `rooms` is one that the room placer may have
    /// carved after the rooms before it, for the given ranges of width and
    /// height: its id is `i + 1`, its width and its height are in range, it
    /// fits into the grid with its margin, and it overlaps, with its margin,
    /// no cell that was part of a room when it was placed.
    pub open spec fn placed_well(
        self,
        rooms: Seq<Room>,
        i: int,
        min_x: int,
        max_x: int,
        min_y: int,
        max_y: int,
    ) -> bool {
        &&& rooms[i].id == i + 1
        &&& min_x <= rooms[i].width <= max_x
        &&& min_y <= rooms[i].height <= max_y
        &&& rooms[i].fits(self)
        &&& !self.with_rooms(rooms.take(i)).overlaps(rooms[i])
    }

    /// Whether `rooms` is a sequence of rooms that the room placer may have
    /// carved into this grid, in this order: each of them is `placed_well`.
    pub open spec fn placement(
        self,
        rooms: Seq<Room>,
        min_x: int,
        max_x: int,
        min_y: int,
        max_y: int,
    ) -> bool {
        forall|i: int|
            0 <= i < rooms.len() ==> #[trigger] self.placed_well(
                rooms,
                i,
                min_x,
                max_x,
                min_y,
                max_y,
            )
    }

    /// No cell of the grid is part of a room.
    pub open spec fn no_rooms(self) -> bool {
        forall|x: int, y: int| #![trigger self.at(x, y)]
            self.in_bounds(x, y) ==> !self.at(x, y).in_room()
    }

    /// Rooms lie apart: two cells that belong to rooms with different ids are
    /// neither the same cell nor neighbours, not even across a corner.
    pub open spec fn rooms_apart(self) -> bool {
        forall|ax: int, ay: int, bx: int, by: int|
            #![trigger self.at(ax, ay), self.at(bx, by)]
            self.in_bounds(ax, ay) && self.in_bounds(bx, by) && self.at(ax, ay).in_room()
                && self.at(bx, by).in_room() && self.at(ax, ay).id != self.at(bx, by).id ==> ax
                - bx > 1 || bx - ax > 1 || ay - by > 1 || by - ay > 1
    }

    /// Whether this grid is `init` with the carving of `room` standing before
    /// cell `(px, py)`.
    pub open spec fn has_room_part_from(self, init: Grid, room: Room, px: int, py: int) -> bool {
        &&& self.wf()
        &&& self.rows == init.rows
        &&& self.cols == init.cols
        &&& forall|x: int, y: int| #![trigger self.at(x, y)]
            init.in_bounds(x, y) ==> self.at(x, y) == room.carving_cell(
                init.at(x, y),
                x,
                y,
                px,
                py,
            )
    }
}

impl Maze {
    /// Marks the square `(x, y)` with the region `id`.
    fn mark(&mut self, x: u32, y: u32, id: i32)
        requires
            old(self).wf(),
            old(self)@.in_bounds(x as int, y as int),
        ensures
            final(self).wf(),
            final(self)@ == old(self)@.marked(x as int, y as int, id as int),
    {
        proof {
            lemma_offset_in_range(self.rows as int, self.cols as int, x as int, y as int);
        }
        let offset = self.get_offset(x, y);
        let square = &mut self.sq[offset];
        square.id = id;
        proof {
            assert(self@.cells =~= old(self)@.marked(x as int, y as int, id as int).cells);
        }
    }

    /// Whether a room of `x_size` by `y_size` squares with its top left
    /// square at `(x_pos, y_pos)` would overlap a room that is there already:
    /// whether any square of the rectangle, widened by one square on each
    /// side, is part of a room.
    pub fn rooms_overlap(&self, x_pos: u32, y_pos: u32, x_size: u32, y_size: u32) -> (overlap: bool)
        requires
            self.wf(),
            (Room {
                x: x_pos as int,
                y: y_pos as int,
                width: x_size as int,
                height: y_size as int,
                id: 0,
            }).fits(self@),
        ensures
            overlap == self@.overlaps(
                Room {
                    x: x_pos as int,
                    y: y_pos as int,
                    width: x_size as int,
                    height: y_size as int,
                    id: 0,
                },
            ),
    {
        let ghost room = Room {
            x: x_pos as int,
            y: y_pos as int,
            width: x_size as int,
            height: y_size as int,
            id: 0,
        };
        let end_x = x_pos + x_size;
        let end_y = y_pos + y_size;

        let mut x = x_pos - 1;
        while x < end_x + 1
            invariant
                self.wf(),
                room.fits(self@),
                room == (Room {
                    x: x_pos as int,
                    y: y_pos as int,
                    width: x_size as int,
                    height: y_size as int,
                    id: 0,
                }),
                end_x == x_pos + x_size,
                end_y == y_pos + y_size,
                x_pos - 1 <= x <= end_x + 1,
                forall|cx: int, cy: int| #![trigger self@.at(cx, cy)]
                    room.margin_contains(cx, cy) && cx < x ==> !self@.at(cx, cy).in_room(),
            decreases end_x + 1 - x,
        {
            let mut y = y_pos - 1;
            while y < end_y + 1
                invariant
                    self.wf(),
                    room.fits(self@),
                    room == (Room {
                        x: x_pos as int,
                        y: y_pos as int,
                        width: x_size as int,
                        height: y_size as int,
                        id: 0,
                    }),
                    end_x == x_pos + x_size,
                    end_y == y_pos + y_size,
                    x_pos - 1 <= x < end_x + 1,
                    y_pos - 1 <= y <= end_y + 1,
                    forall|cx: int, cy: int| #![trigger self@.at(cx, cy)]
                        room.margin_contains(cx, cy) && (cx < x || (cx == x && cy < y))
                            ==> !self@.at(cx, cy).in_room(),
                decreases end_y + 1 - y,
            {
                proof {
                    lemma_offset_in_range(self.rows as int, self.cols as int, x as int, y as int);
                }
                let sq = &self.sq[self.get_offset(x, y)];
                if sq.is_part_of_room() {
                    assert(room.margin_contains(x as int, y as int) && self@.at(
                        x as int,
                        y as int,
                    ).in_room());
                    return true;
                }
                y = y + 1;
            }
            x = x + 1;
        }
        false
    }

    /// Carves a room of `x_size` by `y_size` squares with its top left square
    /// at `(x_pos, y_pos)`: every square of the room is marked with the
    /// region `id`, every wall between two squares of the room is broken, and
    /// the walls around the room are left standing.
    pub fn carve_room(&mut self, x_pos: u32, y_pos: u32, x_size: u32, y_size: u32, id: i32)
        requires
            old(self).wf(),
            (Room {
                x: x_pos as int,
                y: y_pos as int,
                width: x_size as int,
                height: y_size as int,
                id: id as int,
            }).inside(old(self)@),
        ensures
            final(self).wf(),
            final(self)@ == old(self)@.with_room(
                Room {
                    x: x_pos as int,
                    y: y_pos as int,
                    width: x_size as int,
                    height: y_size as int,
                    id: id as int,
                },
            ),
    {
        let ghost init = self@;
        let ghost room = Room {
            x: x_pos as int,
            y: y_pos as int,
            width: x_size as int,
            height: y_size as int,
            id: id as int,
        };
        let end_x = x_pos + x_size;
        let end_y = y_pos + y_size;

        let mut x = x_pos;
        while x < end_x
            invariant
                self.wf(),
                init.wf(),
                room.inside(init),
                room == (Room {
                    x: x_pos as int,
                    y: y_pos as int,
                    width: x_size as int,
                    height: y_size as int,
                    id: id as int,
                }),
                end_x == x_pos + x_size,
                end_y == y_pos + y_size,
                x_pos <= x <= end_x,
                self@.has_room_part_from(init, room, x as int, y_pos as int),
            decreases end_x - x,
        {
            let mut y = y_pos;
            while y < end_y
                invariant
                    self.wf(),
                    init.wf(),
                    room.inside(init),
                    room == (Room {
                        x: x_pos as int,
                        y: y_pos as int,
                        width: x_size as int,
                        height: y_size as int,
                        id: id as int,
                    }),
                    end_x == x_pos + x_size,
                    end_y == y_pos + y_size,
                    x_pos <= x < end_x,
                    y_pos <= y <= end_y,
                    self@.has_room_part_from(init, room, x as int, y as int),
                decreases end_y - y,
            {
                let ghost before = self@;
                self.mark(x, y, id);
                let ghost g0 = self@;
                if y != y_pos {
                    self.carve(x, y, DIR_NORTH, id, false).unwrap();
                }
                let ghost g1 = self@;
                if y != end_y - 1 {
                    self.carve(x, y, DIR_SOUTH, id, false).unwrap();
                }
                let ghost g2 = self@;
                if x != end_x - 1 {
                    self.carve(x, y, DIR_EAST, id, false).unwrap();
                }
                let ghost g3 = self@;
                if x != x_pos {
                    self.carve(x, y, DIR_WEST, id, false).unwrap();
                }
                proof {
                    let g4 = self@;
                    assert forall|cx: int, cy: int| #![trigger g4.at(cx, cy)]
                        init.in_bounds(cx, cy) implies g4.at(cx, cy) == room.carving_cell(
                        init.at(cx, cy),
                        cx,
                        cy,
                        x as int,
                        y + 1,
                    ) by {
                        assert(before.at(cx, cy) == room.carving_cell(
                            init.at(cx, cy),
                            cx,
                            cy,
                            x as int,
                            y as int,
                        ));
                        lemma_marked_at(before, x as int, y as int, id as int, cx, cy);
                        if y != y_pos {
                            lemma_carved_at(g0, x as int, y as int, 0, id as int, false, cx, cy);
                        }
                        if y != end_y - 1 {
                            lemma_carved_at(g1, x as int, y as int, 1, id as int, false, cx, cy);
                        }
                        if x != end_x - 1 {
                            lemma_carved_at(g2, x as int, y as int, 2, id as int, false, cx, cy);
                        }
                        if x != x_pos {
                            lemma_carved_at(g3, x as int, y as int, 3, id as int, false, cx, cy);
                        }
                    }
                }
                y = y + 1;
            }
            proof {
                let g = self@;
                assert forall|cx: int, cy: int| #![trigger g.at(cx, cy)]
                    init.in_bounds(cx, cy) implies g.at(cx, cy) == room.carving_cell(
                    init.at(cx, cy),
                    cx,
                    cy,
                    x + 1,
                    y_pos as int,
                ) by {
                    assert(g.at(cx, cy) == room.carving_cell(
                        init.at(cx, cy),
                        cx,
                        cy,
                        x as int,
                        end_y as int,
                    ));
                }
            }
            x = x + 1;
        }
        proof {
            let g = self@;
            let whole = init.with_room(room);
            lemma_with_room_shape(init, room);
            assert forall|cx: int, cy: int| #![trigger g.at(cx, cy)]
                init.in_bounds(cx, cy) implies g.at(cx, cy) == whole.at(cx, cy) by {
                assert(g.at(cx, cy) == room.carving_cell(
                    init.at(cx, cy),
                    cx,
                    cy,
                    end_x as int,
                    y_pos as int,
                ));
                lemma_with_room_at(init, room, cx, cy);
            }
            lemma_grid_equal(g, whole);
        }
    }

    /// Carves the room with id `id` at `(x_pos, y_pos)` unless it would
    /// overlap, with its margin of one square, a room that is there already.
    /// Tells whether the room was carved.
    pub fn try_place_room(&mut self, x_pos: u32, y_pos: u32, x_size: u32, y_size: u32, id: i32) -> (placed:
        bool)
        requires
            old(self).wf(),
            (Room {
                x: x_pos as int,
                y: y_pos as int,
                width: x_size as int,
                height: y_size as int,
                id: id as int,
            }).fits(old(self)@),
        ensures
            final(self).wf(),
            placed == !old(self)@.overlaps(
                Room {
                    x: x_pos as int,
                    y: y_pos as int,
                    width: x_size as int,
                    height: y_size as int,
                    id: id as int,
                },
            ),
            placed ==> final(self)@ == old(self)@.with_room(
                Room {
                    x: x_pos as int,
                    y: y_pos as int,
                    width: x_size as int,
                    height: y_size as int,
                    id: id as int,
                },
            ),
            !placed ==> *final(self) == *old(self),
    {
        let ghost room = Room {
            x: x_pos as int,
            y: y_pos as int,
            width: x_size as int,
            height: y_size as int,
            id: id as int,
        };
        let ghost probe = Room { id: 0, ..room };
        assert(self@.overlaps(room) == self@.overlaps(probe));
        if !self.rooms_overlap(x_pos, y_pos, x_size, y_size) {
            self.carve_room(x_pos, y_pos, x_size, y_size, id);
            true
        } else {
            false
        }
    }

    /// Places up to `count` rooms. For each of them a width from `min_x` to
    /// `max_x`, a height from `min_y` to `max_y` and a position at which the
    /// room keeps one square of margin to the outer boundary are drawn at
    /// random. A room that would overlap an earlier one, margin included, is
    /// dropped and not drawn again; the others are carved and numbered from 1
    /// in the order in which they come. Returns how many rooms were carved:
    /// at least one where the maze had no room before. Where cells of rooms
    /// with different ids lay apart before, they lie apart afterwards. No room
    /// is carved once the ids have run out.
    pub fn make_rooms(
        &mut self,
        count: u32,
        min_x: u32,
        max_x: u32,
        min_y: u32,
        max_y: u32,
        rng: &mut StdRng,
    ) -> (placed: u32)
        requires
            old(self).wf(),
            count > 0 ==> min_x <= max_x && max_x + 2 <= old(self)@.cols,
            count > 0 ==> min_y <= max_y && max_y + 2 <= old(self)@.rows,
        ensures
            final(self).wf(),
            placed <= count,
            placed <= i32::MAX,
            count > 0 && old(self)@.no_rooms() ==> placed >= 1,
            old(self)@.rooms_apart() ==> final(self)@.rooms_apart(),
            exists|rooms: Seq<Room>|
                {
                    &&& rooms.len() == placed
                    &&& old(self)@.placement(
                        rooms,
                        min_x as int,
                        max_x as int,
                        min_y as int,
                        max_y as int,
                    )
                    &&& final(self)@ == #[trigger] old(self)@.with_rooms(rooms)
                },
    {
        let ghost init = self@;
        let ghost mut rooms: Seq<Room> = Seq::empty();
        let mut placed: u32 = 0;
        let mut i: u32 = 0;
        while i < count
            invariant
                self.wf(),
                init.wf(),
                i <= count,
                count > 0 ==> min_x <= max_x && max_x + 2 <= init.cols,
                count > 0 ==> min_y <= max_y && max_y + 2 <= init.rows,
                placed == rooms.len(),
                placed <= i32::MAX,
                placed <= i,
                i > 0 && init.no_rooms() ==> rooms.len() >= 1,
                init.placement(rooms, min_x as int, max_x as int, min_y as int, max_y as int),
                self@ == init.with_rooms(rooms),
            decreases count - i,
        {
            proof {
                lemma_with_rooms_shape(init, rooms);
            }
            let x_size = random_in_range(rng, min_x, max_x + 1);
            let y_size = random_in_range(rng, min_y, max_y + 1);
            let x_pos = random_in_range(rng, 1, self.cols - x_size);
            let y_pos = random_in_range(rng, 1, self.rows - y_size);

            let ghost room = Room {
                x: x_pos as int,
                y: y_pos as int,
                width: x_size as int,
                height: y_size as int,
                id: placed + 1,
            };
            proof {
                if rooms.len() == 0 && init.no_rooms() {
                    assert(!init.overlaps(room));
                }
            }
            // the next room takes the next id, as long as there is one
            if placed < 2147483647 && self.try_place_room(
                x_pos,
                y_pos,
                x_size,
                y_size,
                (placed + 1) as i32,
            ) {
                proof {
                    let more = rooms.push(room);
                    assert(more.drop_last() =~= rooms);
                    assert forall|k: int| 0 <= k < more.len() implies #[trigger] init.placed_well(
                        more,
                        k,
                        min_x as int,
                        max_x as int,
                        min_y as int,
                        max_y as int,
                    ) by {
                        if k < rooms.len() {
                            assert(init.placed_well(
                                rooms,
                                k,
                                min_x as int,
                                max_x as int,
                                min_y as int,
                                max_y as int,
                            ));
                            assert(more[k] == rooms[k]);
                            assert(more.take(k) =~= rooms.take(k));
                        } else {
                            assert(more.take(k) =~= rooms);
                        }
                    }
                    rooms = more;
                }
                placed = placed + 1;
            }
            i = i + 1;
        }
        proof {
            if init.rooms_apart() {
                lemma_with_rooms_apart(
                    init,
                    rooms,
                    min_x as int,
                    max_x as int,
                    min_y as int,
                    max_y as int,
                );
            }
        }
        placed
    }
}

/// What marking a cell does, cell by cell: the cell takes the id and nothing
/// else changes.
pub proof fn lemma_marked_at(g: Grid, x: int, y: int, id: int, cx: int, cy: int)
    requires
        g.wf(),
        g.in_bounds(x, y),
        g.in_bounds(cx, cy),
    ensures
        g.marked(x, y, id).wf(),
        g.marked(x, y, id).rows == g.rows,
        g.marked(x, y, id).cols == g.cols,
        g.marked(x, y, id).at(cx, cy) == if cx == x && cy == y {
            g.at(x, y).with_id(id)
        } else {
            g.at(cx, cy)
        },
{
    lemma_offset_in_range(g.rows, g.cols, x, y);
    lemma_offset_in_range(g.rows, g.cols, cx, cy);
    if g.offset(cx, cy) == g.offset(x, y) {
        lemma_offset_injective(g.cols, cx, cy, x, y);
    }
}

/// Two grids of the same shape that agree on every cell are the same grid.
pub proof fn lemma_grid_equal(a: Grid, b: Grid)
    requires
        a.wf(),
        b.wf(),
        a.rows == b.rows,
        a.cols == b.cols,
        forall|x: int, y: int| #![trigger a.at(x, y)] a.in_bounds(x, y) ==> a.at(x, y) == b.at(x, y),
    ensures
        a == b,
{
    assert forall|i: int| 0 <= i < a.cells.len() implies a.cells[i] == b.cells[i] by {
        lemma_offset_surjective(a.rows, a.cols, i);
        let x = i % a.cols;
        let y = i / a.cols;
        assert(a.at(x, y) == b.at(x, y));
    }
    assert(a.cells =~= b.cells);
}

/// Carving a room keeps the shape of the grid.
pub proof fn lemma_with_room_shape(g: Grid, room: Room)
    requires
        g.wf(),
    ensures
        g.with_room(room).wf(),
        g.with_room(room).rows == g.rows,
        g.with_room(room).cols == g.cols,
{
    reveal(Grid::with_room);
}

/// What carving a room does, cell by cell.
pub proof fn lemma_with_room_at(g: Grid, room: Room, x: int, y: int)
    requires
        g.wf(),
        g.in_bounds(x, y),
    ensures
        g.with_room(room).wf(),
        g.with_room(room).rows == g.rows,
        g.with_room(room).cols == g.cols,
        g.with_room(room).at(x, y) == room.carved_cell(g.at(x, y), x, y),
{
    reveal(Grid::with_room);
    let i = g.offset(x, y);
    lemma_offset_in_range(g.rows, g.cols, x, y);
    lemma_offset_surjective(g.rows, g.cols, i);
    lemma_offset_injective(g.cols, i % g.cols, i / g.cols, x, y);
}

/// Carving rooms keeps the shape of the grid.
pub proof fn lemma_with_rooms_shape(g: Grid, rooms: Seq<Room>)
    requires
        g.wf(),
    ensures
        g.with_rooms(rooms).wf(),
        g.with_rooms(rooms).rows == g.rows,
        g.with_rooms(rooms).cols == g.cols,
    decreases rooms.len(),
{
    if rooms.len() > 0 {
        lemma_with_rooms_shape(g, rooms.drop_last());
        lemma_with_room_shape(g.with_rooms(rooms.drop_last()), rooms.last());
    }
}

/// A placement stays one when its last room is left out.
pub proof fn lemma_placement_prefix(
    g: Grid,
    rooms: Seq<Room>,
    min_x: int,
    max_x: int,
    min_y: int,
    max_y: int,
    k: int,
)
    requires
        g.placement(rooms, min_x, max_x, min_y, max_y),
        0 <= k <= rooms.len(),
    ensures
        g.placement(rooms.take(k), min_x, max_x, min_y, max_y),
{
    let part = rooms.take(k);
    assert forall|i: int| 0 <= i < part.len() implies #[trigger] g.placed_well(
        part,
        i,
        min_x,
        max_x,
        min_y,
        max_y,
    ) by {
        assert(g.placed_well(rooms, i, min_x, max_x, min_y, max_y));
        assert(part[i] == rooms[i]);
        assert(part.take(i) =~= rooms.take(i));
    }
}

/// Once a room is placed, its cells are part of a room and stay so while
/// further rooms are placed.
pub proof fn lemma_room_cells_tagged(
    g: Grid,
    rooms: Seq<Room>,
    min_x: int,
    max_x: int,
    min_y: int,
    max_y: int,
    i: int,
    k: int,
    x: int,
    y: int,
)
    requires
        g.wf(),
        g.placement(rooms, min_x, max_x, min_y, max_y),
        0 <= i < k <= rooms.len(),
        rooms[i].contains(x, y),
    ensures
        g.in_bounds(x, y),
        g.with_rooms(rooms.take(k)).at(x, y).in_room(),
    decreases k,
{
    let upto = rooms.take(k);
    let prev = rooms.take(k - 1);
    let last = rooms[k - 1];
    assert(upto.drop_last() =~= prev);
    assert(upto.last() == last);
    assert(g.with_rooms(upto) == g.with_rooms(prev).with_room(last));
    assert(g.placed_well(rooms, i, min_x, max_x, min_y, max_y));
    assert(g.placed_well(rooms, k - 1, min_x, max_x, min_y, max_y));
    lemma_with_rooms_shape(g, prev);
    lemma_with_room_at(g.with_rooms(prev), last, x, y);
    if k - 1 > i {
        lemma_room_cells_tagged(g, rooms, min_x, max_x, min_y, max_y, i, k - 1, x, y);
    }
}

/// Rooms never overlap: of two rooms that the room placer carved, the later
/// one keeps its margin of one cell clear of every cell of the earlier one.
pub proof fn lemma_rooms_do_not_overlap(
    g: Grid,
    rooms: Seq<Room>,
    min_x: int,
    max_x: int,
    min_y: int,
    max_y: int,
    i: int,
    j: int,
    x: int,
    y: int,
)
    requires
        g.wf(),
        g.placement(rooms, min_x, max_x, min_y, max_y),
        0 <= i < j < rooms.len(),
        rooms[i].contains(x, y),
    ensures
        !rooms[j].margin_contains(x, y),
{
    lemma_room_cells_tagged(g, rooms, min_x, max_x, min_y, max_y, i, j, x, y);
    let before = g.with_rooms(rooms.take(j));
    assert(g.placed_well(rooms, j, min_x, max_x, min_y, max_y));
    assert(before.at(x, y).in_room());
}

/// Placing a room that overlaps no other keeps rooms apart.
pub proof fn lemma_with_room_apart(g: Grid, room: Room)
    requires
        g.wf(),
        g.rooms_apart(),
        room.fits(g),
        !g.overlaps(room),
    ensures
        g.with_room(room).rooms_apart(),
{
    let h = g.with_room(room);
    lemma_with_room_shape(g, room);
    assert forall|ax: int, ay: int, bx: int, by: int|
        #![trigger h.at(ax, ay), h.at(bx, by)]
        h.in_bounds(ax, ay) && h.in_bounds(bx, by) && h.at(ax, ay).in_room() && h.at(
            bx,
            by,
        ).in_room() && h.at(ax, ay).id != h.at(bx, by).id implies ax - bx > 1 || bx - ax > 1 || ay
        - by > 1 || by - ay > 1 by {
        lemma_with_room_at(g, room, ax, ay);
        lemma_with_room_at(g, room, bx, by);
        assert(room.margin_contains(ax, ay) ==> !g.at(ax, ay).in_room());
        assert(room.margin_contains(bx, by) ==> !g.at(bx, by).in_room());
    }
}

/// Room placement keeps rooms apart: where cells of rooms with different ids
/// were neither the same nor neighbours before, they are not afterwards.
pub proof fn lemma_with_rooms_apart(
    g: Grid,
    rooms: Seq<Room>,
    min_x: int,
    max_x: int,
    min_y: int,
    max_y: int,
)
    requires
        g.wf(),
        g.rooms_apart(),
        g.placement(rooms, min_x, max_x, min_y, max_y),
    ensures
        g.with_rooms(rooms).rooms_apart(),
    decreases rooms.len(),
{
    if rooms.len() > 0 {
        let k = rooms.len() - 1;
        assert(rooms.drop_last() =~= rooms.take(k));
        lemma_placement_prefix(g, rooms, min_x, max_x, min_y, max_y, k);
        lemma_with_rooms_apart(g, rooms.take(k), min_x, max_x, min_y, max_y);
        lemma_with_rooms_shape(g, rooms.take(k));
        assert(g.placed_well(rooms, k, min_x, max_x, min_y, max_y));
        lemma_with_room_apart(g.with_rooms(rooms.take(k)), rooms[k]);
    }
}

/// Breaking walls and turning cells into corridor keeps rooms apart.
pub proof fn lemma_opened_rooms_apart(g: Grid, h: Grid)
    requires
        h.opened_from(g),
        g.rooms_apart(),
    ensures
        h.rooms_apart(),
{
    assert forall|ax: int, ay: int, bx: int, by: int|
        #![trigger h.at(ax, ay), h.at(bx, by)]
        h.in_bounds(ax, ay) && h.in_bounds(bx, by) && h.at(ax, ay).in_room() && h.at(
            bx,
            by,
        ).in_room() && h.at(ax, ay).id != h.at(bx, by).id implies ax - bx > 1 || bx - ax > 1 || ay
        - by > 1 || by - ay > 1 by {
        assert(h.at(ax, ay).opened_from(g.at(ax, ay)));
        assert(h.at(bx, by).opened_from(g.at(bx, by)));
    }
}

/// On a grid that had no rooms, the cells that carry the id of a room are
/// the cells of that room: a cell that is part of a room carries the id of
/// the one room that contains it.
pub proof fn lemma_room_cells_by_id(
    g: Grid,
    rooms: Seq<Room>,
    min_x: int,
    max_x: int,
    min_y: int,
    max_y: int,
    x: int,
    y: int,
)
    requires
        g.wf(),
        g.no_rooms(),
        g.placement(rooms, min_x, max_x, min_y, max_y),
        g.in_bounds(x, y),
    ensures
        g.with_rooms(rooms).at(x, y).in_room() ==> 1 <= g.with_rooms(rooms).at(x, y).id
            <= rooms.len() && rooms[g.with_rooms(rooms).at(x, y).id - 1].contains(x, y),
        forall|k: int|
            0 <= k < rooms.len() && (#[trigger] rooms[k]).contains(x, y) ==> g.with_rooms(
                rooms,
            ).at(x, y).id == k + 1,
    decreases rooms.len(),
{
    if rooms.len() > 0 {
        let n = rooms.len() - 1;
        let part = rooms.take(n);
        let last = rooms[n];
        let before = g.with_rooms(part);
        assert(rooms.drop_last() =~= part);
        lemma_placement_prefix(g, rooms, min_x, max_x, min_y, max_y, n);
        lemma_room_cells_by_id(g, part, min_x, max_x, min_y, max_y, x, y);
        lemma_with_rooms_shape(g, part);
        lemma_with_room_at(before, last, x, y);
        assert(g.placed_well(rooms, n, min_x, max_x, min_y, max_y));
        assert forall|k: int| 0 <= k < rooms.len() && (#[trigger] rooms[k]).contains(
            x,
            y,
        ) implies g.with_rooms(rooms).at(x, y).id == k + 1 by {
            if k < n {
                assert(part[k] == rooms[k]);
                assert(before.at(x, y).id == k + 1);
                // the last room would have overlapped room `k`
                assert(!last.margin_contains(x, y));
            }
        }
        if g.with_rooms(rooms).at(x, y).in_room() && !last.contains(x, y) {
            assert(part[before.at(x, y).id - 1] == rooms[before.at(x, y).id - 1]);
        }
    }
}

/// Rooms keep their margins: no cell of one room lies in another room that
/// has cells, or in the margin of one cell around it, whichever of the two
/// was placed first.
pub proof fn lemma_rooms_keep_margins(
    g: Grid,
    rooms: Seq<Room>,
    min_x: int,
    max_x: int,
    min_y: int,
    max_y: int,
    i: int,
    j: int,
    x: int,
    y: int,
)
    requires
        g.wf(),
        g.placement(rooms, min_x, max_x, min_y, max_y),
        0 <= i < rooms.len(),
        0 <= j < rooms.len(),
        i != j,
        rooms[i].width >= 1,
        rooms[i].height >= 1,
        rooms[j].contains(x, y),
    ensures
        !rooms[i].margin_contains(x, y),
{
    if j < i {
        lemma_rooms_do_not_overlap(g, rooms, min_x, max_x, min_y, max_y, j, i, x, y);
    } else if rooms[i].margin_contains(x, y) {
        // the cell of room `i` that is nearest to `(x, y)` lies in the margin
        // of the later room `j`
        let a = rooms[i];
        let nx = if x < a.x {
            a.x
        } else if x > a.x + a.width - 1 {
            a.x + a.width - 1
        } else {
            x
        };
        let ny = if y < a.y {
            a.y
        } else if y > a.y + a.height - 1 {
            a.y + a.height - 1
        } else {
            y
        };
        assert(a.contains(nx, ny));
        assert(rooms[j].margin_contains(nx, ny));
        lemma_rooms_do_not_overlap(g, rooms, min_x, max_x, min_y, max_y, i, j, nx, ny);
    }
}

/// Room placement leaves every cell alone that lies in no room: so the
/// cells along the outer boundary, which no room reaches.
pub proof fn lemma_with_rooms_outside(
    g: Grid,
    rooms: Seq<Room>,
    min_x: int,
    max_x: int,
    min_y: int,
    max_y: int,
    x: int,
    y: int,
)
    requires
        g.wf(),
        g.placement(rooms, min_x, max_x, min_y, max_y),
        g.in_bounds(x, y),
        forall|i: int| 0 <= i < rooms.len() ==> !(#[trigger] rooms[i]).contains(x, y),
    ensures
        g.with_rooms(rooms).at(x, y) == g.at(x, y),
    decreases rooms.len(),
{
    if rooms.len() > 0 {
        let k = rooms.len() - 1;
        let part = rooms.take(k);
        assert(rooms.drop_last() =~= part);
        lemma_placement_prefix(g, rooms, min_x, max_x, min_y, max_y, k);
        assert forall|i: int| 0 <= i < part.len() implies !(#[trigger] part[i]).contains(x, y) by {
            assert(part[i] == rooms[i]);
        }
        lemma_with_rooms_outside(g, part, min_x, max_x, min_y, max_y, x, y);
        lemma_with_rooms_shape(g, part);
        lemma_with_room_at(g.with_rooms(part), rooms[k], x, y);
        assert(!rooms[k].contains(x, y));
    }
}

} // verus!
