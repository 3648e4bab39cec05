//! The corridor carver: a randomized growing-tree walk with a backtracking
//! stack.
use vstd::prelude::*;
use rand::rngs::StdRng;
use crate::constants::{DIR_EAST, DIR_NORTH, DIR_SOUTH, DIR_WEST, ID_MAZE_PATH};
use crate::error::MazeError;
use crate::maze::grid::{
    is_direction, lemma_candidates_members, lemma_carved_at, lemma_offset_in_range, opposite,
    step_x, step_y, Grid,
};
use crate::maze::random::random_in_range;
use crate::maze::reach::{
    count_uncarved, lemma_carved_counts, lemma_carved_opened_from, lemma_carved_walls_agree,
    lemma_came_from, lemma_connected_extend, lemma_connected_preserved,
    lemma_grown_from_fresh, lemma_opened_from_chain,
};
use crate::maze::rooms::{
    lemma_opened_rooms_apart, lemma_with_rooms_outside, lemma_with_rooms_shape, Room,
};
use crate::maze::{Coord, Maze};

verus! {

impl Maze {
    /// The directions in which the walk may leave `(x, y)`: those whose
    /// neighbour lies inside the maze and is not carved yet, in the order
    /// north, south, east, west. Outside the maze there are none.
    pub fn candidate_directions(&self, x: u32, y: u32) -> (directions: Vec<u32>)
        requires
            self.wf(),
        ensures
            directions@ == self@.candidates(x as int, y as int),
    {
        let mut directions: Vec<u32> = Vec::new();
        if x >= self.cols || y >= self.rows {
            return directions;
        }
        proof {
            lemma_offset_in_range(self.rows as int, self.cols as int, x as int, y as int);
        }
        if y > 0 {
            proof {
                lemma_offset_in_range(self.rows as int, self.cols as int, x as int, y - 1);
            }
            let sq = &self.sq[self.get_offset(x, y - 1)];
            if !sq.is_carved() {
                directions.push(DIR_NORTH);
            }
        }
        if y < self.rows - 1 {
            proof {
                lemma_offset_in_range(self.rows as int, self.cols as int, x as int, y + 1);
            }
            let sq = &self.sq[self.get_offset(x, y + 1)];
            if !sq.is_carved() {
                directions.push(DIR_SOUTH);
            }
        }
        if x < self.cols - 1 {
            proof {
                lemma_offset_in_range(self.rows as int, self.cols as int, x + 1, y as int);
            }
            let sq = &self.sq[self.get_offset(x + 1, y)];
            if !sq.is_carved() {
                directions.push(DIR_EAST);
            }
        }
        if x > 0 {
            proof {
                lemma_offset_in_range(self.rows as int, self.cols as int, x - 1, y as int);
            }
            let sq = &self.sq[self.get_offset(x - 1, y)];
            if !sq.is_carved() {
                directions.push(DIR_WEST);
            }
        }
        assert(directions@ =~= self@.candidates(x as int, y as int));
        directions
    }

    /// The direction that the draw `roll` stands for at `(x, y)`: the
    /// candidate at that place of the list, which `candidate_directions`
    /// gives. So each draw below the number of candidates stands for another
    /// candidate, and every candidate has its draw.
    pub fn direction_for_draw(&self, x: u32, y: u32, roll: u32) -> (dir: u32)
        requires
            self.wf(),
            roll < self@.candidates(x as int, y as int).len(),
        ensures
            dir == self@.candidates(x as int, y as int)[roll as int],
    {
        let directions = self.candidate_directions(x, y);
        directions[roll as usize]
    }

    /// Picks at random one of the directions in which the walk may leave
    /// `(x, y)`: a number below the number of candidates is drawn, and
    /// `direction_for_draw` turns it into a direction. The flag tells whether
    /// there was any candidate; without one the direction returned is 0.
    pub fn pick_direction(&self, x: u32, y: u32, rng: &mut StdRng) -> (picked: (bool, u32))
        requires
            self.wf(),
        ensures
            picked.0 <==> self@.candidates(x as int, y as int).len() > 0,
            picked.0 ==> self@.candidates(x as int, y as int).contains(picked.1),
            picked.0 ==> self@.is_candidate(x as int, y as int, picked.1 as int),
            !picked.0 ==> picked.1 == 0,
    {
        let directions = self.candidate_directions(x, y);
        proof {
            lemma_candidates_members(self@, x as int, y as int);
        }
        // If no directions are found...
        if directions.len() == 0 {
            (false, 0)
        } else {
            let roll = random_in_range(rng, 0, directions.len() as u32);
            assert(directions@.contains(directions@[roll as int]));
            (true, self.direction_for_draw(x, y, roll))
        }
    }

    /// Carves from `from` towards `dir` as a corridor and returns the
    /// neighbour that the walk has moved to. A neighbour that belongs to a
    /// room keeps its id.
    fn advance(&mut self, from: Coord, dir: u32) -> (result: Result<Coord, MazeError>)
        requires
            old(self).wf(),
            old(self)@.is_candidate(from.x as int, from.y as int, dir as int),
        ensures
            final(self).wf(),
            result matches Ok(next) && next.x == step_x(from.x as int, dir as int) && next.y
                == step_y(from.y as int, dir as int) && final(self)@ == old(self)@.carved(
                from.x as int,
                from.y as int,
                dir as int,
                ID_MAZE_PATH as int,
                old(self)@.at(next.x as int, next.y as int).in_room(),
            ),
    {
        let mut next = from;
        if dir == DIR_NORTH {
            next.y = next.y - 1;
        } else if dir == DIR_SOUTH {
            next.y = next.y + 1;
        } else if dir == DIR_EAST {
            next.x = next.x + 1;
        } else {
            next.x = next.x - 1;
        }
        proof {
            lemma_offset_in_range(self.rows as int, self.cols as int, next.x as int, next.y as int);
        }
        let carve_out = self.sq[self.get_offset(next.x, next.y)].is_part_of_room();
        match self.carve(from.x, from.y, dir, ID_MAZE_PATH, carve_out) {
            Ok(()) => Ok(next),
            Err(e) => Err(e),
        }
    }

    /// Carves corridors with the growing-tree walk, starting at
    /// `(start_x, start_y)`.
    ///
    /// At the current square one of the directions whose neighbour is not
    /// carved yet is drawn at random; the wall is carved, the current square
    /// goes on the stack and the walk moves to the neighbour. Where no such
    /// direction is left the walk goes back to the square on top of the stack.
    /// It ends when that stack is empty and the current square has no
    /// direction left.
    ///
    /// On a maze without squares there is nothing to do. Otherwise the walk
    /// is refused, and the maze left as it was, when the start lies outside
    /// the maze or has no direction to begin with.
    pub fn generate_growing_tree(&mut self, start_x: u32, start_y: u32, rng: &mut StdRng) -> (result:
        Result<(), MazeError>)
        requires
            old(self).wf(),
        ensures
            final(self).wf(),
            match old(self)@.growth_error(start_x, start_y) {
                Some(e) => result == Err::<(), MazeError>(e) && *final(self) == *old(self),
                None => result is Ok && if old(self)@.rows == 0 || old(self)@.cols == 0 {
                    *final(self) == *old(self)
                } else {
                    final(self)@.grown_from(old(self)@, start_x as int, start_y as int)
                },
            },
    {
        if self.rows == 0 || self.cols == 0 {
            return Ok(());
        }
        if start_x >= self.cols || start_y >= self.rows {
            return Err(MazeError::OutOfBounds { x: start_x, y: start_y });
        }
        let ghost init = self@;
        let ghost sx = start_x as int;
        let ghost sy = start_y as int;
        let mut visited: Vec<Coord> = Vec::new();
        let mut cur_coord = Coord { x: start_x, y: start_y };

        // Handle the initial square
        let (found, dir) = self.pick_direction(cur_coord.x, cur_coord.y, rng);
        if !found {
            return Err(MazeError::NoInitialDirection { x: start_x, y: start_y });
        }
        let ghost mut seen: Set<(int, int)> = set![(sx, sy)];
        match self.advance(cur_coord, dir) {
            Ok(next) => {
                proof {
                    lemma_walk_step(init, init, seen, visited@, sx, sy, sx, sy, dir as int);
                    seen = seen.insert((next.x as int, next.y as int));
                }
                visited.push(cur_coord);
                cur_coord = next;
            },
            Err(e) => {
                // a failed carve ends the walk
                return Err(e);
            },
        }

        // Handle all subsequent squares
        loop
            invariant
                self.wf(),
                walk_state(init, self@, seen, visited@, sx, sy, cur_coord.x as int, cur_coord.y as int),
            ensures
                self.wf(),
                walk_state(init, self@, seen, visited@, sx, sy, cur_coord.x as int, cur_coord.y as int),
                visited@.len() == 0,
                self@.stuck(cur_coord.x as int, cur_coord.y as int),
            decreases count_uncarved(self@.cells), visited@.len(),
        {
            let (found, dir) = self.pick_direction(cur_coord.x, cur_coord.y, rng);
            proof {
                lemma_candidates_members(self@, cur_coord.x as int, cur_coord.y as int);
            }
            if !found {
                // No directions available.  Pull a square from the stack.
                let ghost before = visited@;
                match visited.pop() {
                    Some(top) => {
                        proof {
                            lemma_walk_back(
                                init,
                                self@,
                                seen,
                                before,
                                sx,
                                sy,
                                cur_coord.x as int,
                                cur_coord.y as int,
                            );
                        }
                        cur_coord = top;
                    },
                    None => {
                        break ;
                    },
                }
            } else {
                let ghost before = self@;
                match self.advance(cur_coord, dir) {
                    Ok(next) => {
                        proof {
                            lemma_walk_step(
                                init,
                                before,
                                seen,
                                visited@,
                                sx,
                                sy,
                                cur_coord.x as int,
                                cur_coord.y as int,
                                dir as int,
                            );
                            lemma_carved_counts(
                                before,
                                cur_coord.x as int,
                                cur_coord.y as int,
                                dir as int,
                                ID_MAZE_PATH as int,
                                before.at(next.x as int, next.y as int).in_room(),
                            );
                            seen = seen.insert((next.x as int, next.y as int));
                        }
                        visited.push(cur_coord);
                        cur_coord = next;
                    },
                    Err(e) => {
                        // a failed carve ends the walk
                        return Err(e);
                    },
                }
            }
        }
        proof {
            assert(visited@ =~= Seq::<Coord>::empty());
            lemma_walk_done(init, self@, seen, sx, sy, cur_coord.x as int, cur_coord.y as int);
        }
        Ok(())
    }

    /// Generates a perfect maze: corridors grown from the corner `(0, 0)`.
    /// On a maze of untouched squares every square ends up carved and
    /// connected to every other, in one way only.
    pub fn generate_perfect(&mut self, rng: &mut StdRng) -> (result: Result<(), MazeError>)
        requires
            old(self).wf(),
        ensures
            final(self).wf(),
            match old(self)@.growth_error(0, 0) {
                Some(e) => result == Err::<(), MazeError>(e) && *final(self) == *old(self),
                None => result is Ok && if old(self)@.rows == 0 || old(self)@.cols == 0 {
                    *final(self) == *old(self)
                } else {
                    final(self)@.grown_from(old(self)@, 0, 0)
                },
            },
            result is Ok && old(self)@.all_fresh() ==> final(self)@.perfect(),
            result is Ok && old(self)@.all_fresh() ==> final(self)@.all_corridors(),
    {
        let ghost init = self@;
        let result = self.generate_growing_tree(0, 0, rng);
        proof {
            if result is Ok && init.all_fresh() && init.rows != 0 && init.cols != 0 {
                lemma_grown_from_fresh(init, self@);
            }
        }
        result
    }

    /// Generates a maze with rooms. `params` holds, in this order, the number
    /// of rooms to try, the smallest and the largest width of a room, and the
    /// smallest and the largest height. The rooms are placed first; then
    /// corridors are grown from the corner `(0, 0)` through the squares that
    /// are left. Where the corridors cannot start, the error is returned and
    /// the maze keeps the rooms that were placed. Rooms that lay apart before
    /// lie apart afterwards, and so do the rooms that were placed.
    pub fn generate(&mut self, params: (u32, u32, u32, u32, u32), rng: &mut StdRng) -> (result:
        Result<(), MazeError>)
        requires
            old(self).wf(),
            params.0 > 0 ==> params.1 <= params.2 && params.2 + 2 <= old(self)@.cols,
            params.0 > 0 ==> params.3 <= params.4 && params.4 + 2 <= old(self)@.rows,
        ensures
            final(self).wf(),
            match old(self)@.growth_error(0, 0) {
                Some(e) => result == Err::<(), MazeError>(e),
                None => result is Ok,
            },
            old(self)@.rooms_apart() ==> final(self)@.rooms_apart(),
            exists|placed: Seq<Room>|
                {
                    &&& placed.len() <= params.0
                    &&& params.0 > 0 && old(self)@.no_rooms() ==> placed.len() >= 1
                    &&& old(self)@.placement(
                        placed,
                        params.1 as int,
                        params.2 as int,
                        params.3 as int,
                        params.4 as int,
                    )
                    &&& final(self)@.grown_or_same(
                        #[trigger] old(self)@.with_rooms(placed),
                        result is Ok,
                    )
                },
    {
        let (rooms, min_x, max_x, min_y, max_y) = params;
        let ghost init = self@;
        let _rooms = self.make_rooms(rooms, min_x, max_x, min_y, max_y, rng);
        let ghost mid = self@;
        let ghost placed = choose|placed: Seq<Room>|
            {
                &&& placed.len() == _rooms
                &&& init.placement(placed, min_x as int, max_x as int, min_y as int, max_y as int)
                &&& mid == #[trigger] init.with_rooms(placed)
            };
        proof {
            lemma_with_rooms_shape(init, placed);
            lemma_growth_error_with_rooms(
                init,
                placed,
                min_x as int,
                max_x as int,
                min_y as int,
                max_y as int,
            );
        }
        let result = self.generate_growing_tree(0, 0, rng);
        proof {
            if init.rooms_apart() && self@ != mid {
                lemma_opened_rooms_apart(mid, self@);
            }
        }
        result
    }
}

/// Whether `(x, y)` is on the stack of the walk.
spec fn on_stack(stack: Seq<Coord>, x: int, y: int) -> bool {
    exists|k: int| 0 <= k < stack.len() && #[trigger] stack[k].x == x && stack[k].y == y
}

/// What holds of a cell `(x, y)`, other than the start, that the walk has
/// entered: each wall that it has lost leads to a carved cell, and while it
/// has lost one wall only, the one through which the walk came, it has the id
/// that it had, if that was the id of a room.
spec fn entered(init: Grid, now: Grid, x: int, y: int) -> bool {
    &&& now.wall_or_carved(x, y, 0)
    &&& now.wall_or_carved(x, y, 1)
    &&& now.wall_or_carved(x, y, 2)
    &&& now.wall_or_carved(x, y, 3)
    &&& now.at(x, y).missing_walls() == 1 && init.at(x, y).in_room() ==> now.at(x, y).id
        == init.at(x, y).id
}

/// What the walk keeps true while it runs. `init` is the grid it started on,
/// `now` the grid as it is, `seen` the cells that the walk has stood on,
/// `stack` the cells it can still go back to, `(sx, sy)` the start and
/// `(cx, cy)` the cell it stands on.
#[verifier::opaque]
spec fn walk_state(
    init: Grid,
    now: Grid,
    seen: Set<(int, int)>,
    stack: Seq<Coord>,
    sx: int,
    sy: int,
    cx: int,
    cy: int,
) -> bool {
    &&& now.opened_from(init)
    &&& now.frugal_from(init, sx, sy)
    &&& seen.contains((sx, sy))
    &&& seen.contains((cx, cy))
    &&& forall|k: int| 0 <= k < stack.len() ==> seen.contains((#[trigger] stack[k].x as int, stack[k].y as int))
    &&& forall|x: int, y: int| #[trigger]
        seen.contains((x, y)) ==> {
            &&& now.in_bounds(x, y)
            &&& now.at(x, y).carved()
            &&& (x == sx && y == sy) || !init.at(x, y).carved()
            &&& now.at(x, y).id == ID_MAZE_PATH || (init.at(x, y).in_room() && !(x == sx && y
                == sy))
            &&& !(x == sx && y == sy) ==> entered(init, now, x, y)
            &&& now.connected(sx, sy, x, y)
            &&& (x == cx && y == cy) || on_stack(stack, x, y) || now.stuck(x, y)
        }
    &&& forall|x: int, y: int| #![trigger now.at(x, y)]
        now.in_bounds(x, y) && !seen.contains((x, y)) ==> now.at(x, y) == init.at(x, y)
}

/// One step forward keeps the state of the walk: after carving from the
/// current cell `(cx, cy)` towards a candidate direction, with the current
/// cell pushed on the stack and the neighbour as the new current cell.
proof fn lemma_walk_step(
    init: Grid,
    now: Grid,
    seen: Set<(int, int)>,
    stack: Seq<Coord>,
    sx: int,
    sy: int,
    cx: int,
    cy: int,
    dir: int,
)
    requires
        now.is_candidate(cx, cy, dir),
        0 <= cx <= u32::MAX,
        0 <= cy <= u32::MAX,
        now.wf(),
        walk_state(init, now, seen, stack, sx, sy, cx, cy) || (now == init && stack.len() == 0
            && seen == set![(sx, sy)] && cx == sx && cy == sy),
    ensures
        ({
            let nx = step_x(cx, dir);
            let ny = step_y(cy, dir);
            let next = now.carved(cx, cy, dir, ID_MAZE_PATH as int, now.at(nx, ny).in_room());
            walk_state(
                init,
                next,
                seen.insert((nx, ny)),
                stack.push(Coord { x: cx as u32, y: cy as u32 }),
                sx,
                sy,
                nx,
                ny,
            )
        }),
{
    reveal(walk_state);
    let nx = step_x(cx, dir);
    let ny = step_y(cy, dir);
    let carve_out = now.at(nx, ny).in_room();
    let next = now.carved(cx, cy, dir, ID_MAZE_PATH as int, carve_out);
    let seen2 = seen.insert((nx, ny));
    let pushed = Coord { x: cx as u32, y: cy as u32 };
    let stack2 = stack.push(pushed);
    let first = !walk_state(init, now, seen, stack, sx, sy, cx, cy);
    lemma_carved_opened_from(now, cx, cy, dir, carve_out);
    if first {
        lemma_opened_from_chain(init, init, next);
    } else {
        lemma_opened_from_chain(init, now, next);
    }
    lemma_carved_at(now, cx, cy, dir, ID_MAZE_PATH as int, carve_out, cx, cy);
    lemma_carved_at(now, cx, cy, dir, ID_MAZE_PATH as int, carve_out, nx, ny);
    // one more cell is carved, and at most one more wall is gone on each side
    lemma_carved_counts(now, cx, cy, dir, ID_MAZE_PATH as int, carve_out);
    assert(!first ==> now.at(cx, cy).carved());
    if init.walls_agree() {
        assert(now.walls_agree());
        lemma_carved_walls_agree(now, cx, cy, dir, ID_MAZE_PATH as int, carve_out);
        assert(now.at(cx, cy).wall(dir) == now.at(nx, ny).wall(opposite(dir)));
    }
    // the neighbour was not seen before: it was not carved
    assert(!seen.contains((nx, ny))) by {
        if seen.contains((nx, ny)) {
            if first {
                assert(nx == sx && ny == sy);
            } else {
                assert(now.at(nx, ny).carved());
            }
        }
    }
    assert(now.at(nx, ny) == init.at(nx, ny));
    // the start is connected to the current cell in the new grid
    assert(next.connected(sx, sy, cx, cy)) by {
        if first {
            assert(next.linked(sx, sy, cx, cy, 0));
        } else {
            lemma_connected_preserved(now, next, sx, sy, cx, cy);
        }
    }
    lemma_connected_extend(next, sx, sy, cx, cy, dir);
    assert forall|k: int| 0 <= k < stack2.len() implies seen2.contains(
        (#[trigger] stack2[k].x as int, stack2[k].y as int),
    ) by {
        if k < stack.len() {
            assert(stack2[k] == stack[k]);
        }
    }
    assert(stack2[stack.len() as int] == pushed);
    assert forall|x: int, y: int| #[trigger] seen2.contains((x, y)) implies {
        &&& next.in_bounds(x, y)
        &&& next.at(x, y).carved()
        &&& (x == sx && y == sy) || !init.at(x, y).carved()
        &&& next.at(x, y).id == ID_MAZE_PATH || (init.at(x, y).in_room() && !(x == sx && y == sy))
        &&& !(x == sx && y == sy) ==> entered(init, next, x, y)
        &&& next.connected(sx, sy, x, y)
        &&& (x == nx && y == ny) || on_stack(stack2, x, y) || next.stuck(x, y)
    } by {
        lemma_carved_at(now, cx, cy, dir, ID_MAZE_PATH as int, carve_out, x, y);
        if !(x == sx && y == sy) {
            lemma_entered_step(init, now, cx, cy, dir, x, y);
        }
        if x == nx && y == ny {
        } else if x == cx && y == cy {
            assert(stack2[stack.len() as int].x == x && stack2[stack.len() as int].y == y);
            assert(on_stack(stack2, x, y));
        } else {
            assert(seen.contains((x, y)));
            assert(next.at(x, y).opened_from(now.at(x, y)));
            lemma_connected_preserved(now, next, sx, sy, x, y);
            if on_stack(stack, x, y) {
                let k = choose|k: int|
                    0 <= k < stack.len() && #[trigger] stack[k].x == x && stack[k].y == y;
                assert(stack2[k] == stack[k]);
                assert(on_stack(stack2, x, y));
            } else {
                assert(now.stuck(x, y));
                lemma_stuck_preserved(now, next, x, y);
            }
        }
    }
    assert forall|x: int, y: int| #![trigger next.at(x, y)]
        next.in_bounds(x, y) && !seen2.contains((x, y)) implies next.at(x, y) == init.at(x, y) by {
        lemma_carved_at(now, cx, cy, dir, ID_MAZE_PATH as int, carve_out, x, y);
        assert(seen.contains((cx, cy)));
        assert(now.at(x, y) == init.at(x, y));
    }
}

/// One step forward keeps what holds of the cells that the walk has entered,
/// and makes it hold of the cell that it enters.
proof fn lemma_entered_step(init: Grid, now: Grid, cx: int, cy: int, dir: int, x: int, y: int)
    requires
        now.wf(),
        now.is_candidate(cx, cy, dir),
        now.in_bounds(x, y),
        if x == step_x(cx, dir) && y == step_y(cy, dir) {
            now.at(x, y) == init.at(x, y)
        } else {
            entered(init, now, x, y) && now.at(x, y).carved()
        },
    ensures
        entered(
            init,
            now.carved(
                cx,
                cy,
                dir,
                ID_MAZE_PATH as int,
                now.at(step_x(cx, dir), step_y(cy, dir)).in_room(),
            ),
            x,
            y,
        ),
{
    let id = ID_MAZE_PATH as int;
    let carve_out = now.at(step_x(cx, dir), step_y(cy, dir)).in_room();
    let next = now.carved(cx, cy, dir, id, carve_out);
    lemma_carved_at(now, cx, cy, dir, id, carve_out, x, y);
    lemma_carved_at(now, cx, cy, dir, id, carve_out, cx, cy);
    lemma_carved_at(now, cx, cy, dir, id, carve_out, step_x(cx, dir), step_y(cy, dir));
    assert forall|d: int| is_direction(d) implies next.wall_or_carved(x, y, d) by {
        if now.can_carve(x, y, d) {
            lemma_carved_at(now, cx, cy, dir, id, carve_out, step_x(x, d), step_y(y, d));
        }
        if !(x == step_x(cx, dir) && y == step_y(cy, dir)) {
            assert(now.wall_or_carved(x, y, d));
        }
    }
    assert(next.wall_or_carved(x, y, 0));
    assert(next.wall_or_carved(x, y, 1));
    assert(next.wall_or_carved(x, y, 2));
    assert(next.wall_or_carved(x, y, 3));
    if x == cx && y == cy {
        // the walk goes on from this cell: the wall that it breaks stood
        assert(now.wall_or_carved(x, y, dir));
        assert(now.at(x, y).wall(dir));
        assert(next.at(x, y).missing_walls() >= 2);
    }
}

/// A cell with no direction left has none left after walls were broken.
proof fn lemma_stuck_preserved(g: Grid, h: Grid, x: int, y: int)
    requires
        h.opened_from(g),
        g.stuck(x, y),
    ensures
        h.stuck(x, y),
{
    assert forall|dir: int| !h.is_candidate(x, y, dir) by {
        if h.is_candidate(x, y, dir) {
            let nx = step_x(x, dir);
            let ny = step_y(y, dir);
            assert(h.at(nx, ny).opened_from(g.at(nx, ny)));
            assert(g.is_candidate(x, y, dir));
        }
    }
}

/// One step back keeps the state of the walk: the current cell has no
/// direction left, and the top of the stack becomes the current cell.
proof fn lemma_walk_back(
    init: Grid,
    now: Grid,
    seen: Set<(int, int)>,
    stack: Seq<Coord>,
    sx: int,
    sy: int,
    cx: int,
    cy: int,
)
    requires
        walk_state(init, now, seen, stack, sx, sy, cx, cy),
        now.stuck(cx, cy),
        stack.len() > 0,
    ensures
        walk_state(
            init,
            now,
            seen,
            stack.drop_last(),
            sx,
            sy,
            stack.last().x as int,
            stack.last().y as int,
        ),
{
    reveal(walk_state);
    let rest = stack.drop_last();
    let tx = stack.last().x as int;
    let ty = stack.last().y as int;
    assert(seen.contains((stack[stack.len() - 1].x as int, stack[stack.len() - 1].y as int)));
    assert forall|k: int| 0 <= k < rest.len() implies seen.contains(
        (#[trigger] rest[k].x as int, rest[k].y as int),
    ) by {
        assert(rest[k] == stack[k]);
    }
    assert forall|x: int, y: int| #[trigger] seen.contains((x, y)) implies (x == tx && y == ty)
        || on_stack(rest, x, y) || now.stuck(x, y) by {
        if on_stack(stack, x, y) {
            let k = choose|k: int|
                0 <= k < stack.len() && #[trigger] stack[k].x == x && stack[k].y == y;
            if k < rest.len() {
                assert(rest[k] == stack[k]);
                assert(on_stack(rest, x, y));
            }
        }
    }
}

/// When the walk ends, the grid is `grown_from` the grid it started on.
proof fn lemma_walk_done(
    init: Grid,
    now: Grid,
    seen: Set<(int, int)>,
    sx: int,
    sy: int,
    cx: int,
    cy: int,
)
    requires
        walk_state(init, now, seen, Seq::<Coord>::empty(), sx, sy, cx, cy),
        now.stuck(cx, cy),
    ensures
        now.grown_from(init, sx, sy),
{
    reveal(walk_state);
    let none = Seq::<Coord>::empty();
    assert forall|x: int, y: int| #[trigger] seen.contains((x, y)) implies now.stuck(x, y) by {
        assert(!on_stack(none, x, y));
    }
    assert forall|x: int, y: int, n: nat| #![trigger init.reaches(sx, sy, x, y, n)]
        init.reaches(sx, sy, x, y, n) implies now.in_bounds(x, y) && now.at(x, y).carved() by {
        lemma_reached_seen(init, now, seen, sx, sy, x, y, n);
    }
    assert forall|x: int, y: int| #![trigger now.connected(sx, sy, x, y)]
        init.in_bounds(x, y) && now.at(x, y).carved() && !init.at(x, y).carved()
            implies now.connected(sx, sy, x, y) by {
        assert(seen.contains((x, y)));
    }
}

/// The walk has stood on every cell that could be reached from the start
/// through cells that were not carved.
proof fn lemma_reached_seen(
    init: Grid,
    now: Grid,
    seen: Set<(int, int)>,
    sx: int,
    sy: int,
    x: int,
    y: int,
    n: nat,
)
    requires
        now.opened_from(init),
        seen.contains((sx, sy)),
        forall|x: int, y: int| #[trigger]
            seen.contains((x, y)) ==> now.in_bounds(x, y) && now.stuck(x, y),
        forall|x: int, y: int| #![trigger now.at(x, y)]
            now.in_bounds(x, y) && !seen.contains((x, y)) ==> now.at(x, y) == init.at(x, y),
        init.reaches(sx, sy, x, y, n),
    ensures
        seen.contains((x, y)),
    decreases n,
{
    if n > 0 {
        let m = (n - 1) as nat;
        if init.reaches(sx, sy, x, y, m) {
            lemma_reached_seen(init, now, seen, sx, sy, x, y, m);
        } else {
            let dir = init.came_from(sx, sy, x, y, m);
            lemma_came_from(init, sx, sy, x, y, n);
            let px = step_x(x, dir);
            let py = step_y(y, dir);
            lemma_reached_seen(init, now, seen, sx, sy, px, py, m);
            assert(now.stuck(px, py));
            assert(!now.is_candidate(px, py, opposite(dir)));
            assert(step_x(px, opposite(dir)) == x && step_y(py, opposite(dir)) == y);
        }
    }
}

/// Rooms keep clear of the outer boundary, so placing them changes nothing
/// about whether and why the walk from the corner `(0, 0)` is refused.
pub proof fn lemma_growth_error_with_rooms(
    g: Grid,
    rooms: Seq<Room>,
    min_x: int,
    max_x: int,
    min_y: int,
    max_y: int,
)
    requires
        g.wf(),
        g.placement(rooms, min_x, max_x, min_y, max_y),
    ensures
        g.with_rooms(rooms).growth_error(0, 0) == g.growth_error(0, 0),
{
    let h = g.with_rooms(rooms);
    lemma_with_rooms_shape(g, rooms);
    assert forall|i: int| 0 <= i < rooms.len() implies !(#[trigger] rooms[i]).contains(0, 1)
        && !rooms[i].contains(1, 0) by {
        assert(g.placed_well(rooms, i, min_x, max_x, min_y, max_y));
    }
    if g.in_bounds(0, 1) {
        lemma_with_rooms_outside(g, rooms, min_x, max_x, min_y, max_y, 0, 1);
    }
    if g.in_bounds(1, 0) {
        lemma_with_rooms_outside(g, rooms, min_x, max_x, min_y, max_y, 1, 0);
    }
    assert(h.candidates(0, 0) =~= g.candidates(0, 0));
}

} // verus!
