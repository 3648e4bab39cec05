//! Rectangular mazes: a grid of four-walled squares, carved by a randomized
//! growing-tree walk, optionally after placing rectangular rooms.
//!
//! Every function that draws random numbers takes the generator as an
//! argument, so that a seeded generator gives the same maze again. What such
//! a function promises holds whichever numbers are drawn.
pub mod constants;
pub mod error;
pub mod maze;

pub use error::MazeError;
pub use maze::Maze;

use vstd::prelude::*;
use rand::rngs::StdRng;
use maze::grid::Grid;
use maze::reach::{lemma_fresh_growth_error, lemma_grown_from_fresh};
use maze::rooms::Room;

verus! {

/// Builds a maze and generates it. `params` holds, in this order, the number
/// of rows, the number of columns, the number of rooms to try, the smallest
/// width and the smallest height of a room, and the largest width and the
/// largest height. Without rooms the maze is a perfect one. A maze of a single
/// square cannot be generated: its one square has no neighbour to carve into.
pub fn run(params: (u32, u32, u32, u32, u32, u32, u32), rng: &mut StdRng) -> (result: Result<
    Maze,
    MazeError,
>)
    requires
        params.0 * params.1 <= u32::MAX,
        params.2 > 0 ==> params.3 <= params.5 && params.5 + 2 <= params.1,
        params.2 > 0 ==> params.4 <= params.6 && params.6 + 2 <= params.0,
    ensures
        params.0 == 1 && params.1 == 1 ==> result == Err::<Maze, MazeError>(
            MazeError::NoInitialDirection { x: 0, y: 0 },
        ),
        !(params.0 == 1 && params.1 == 1) ==> result is Ok,
        result matches Ok(maze) ==> {
            &&& maze.wf()
            &&& maze@.rooms_apart()
            &&& params.2 == 0 ==> maze@.perfect() && maze@.all_corridors()
            &&& exists|placed: Seq<Room>|
                {
                    &&& placed.len() <= params.2
                    &&& params.2 > 0 ==> placed.len() >= 1
                    &&& Grid::fresh(params.0 as int, params.1 as int).placement(
                        placed,
                        params.3 as int,
                        params.5 as int,
                        params.4 as int,
                        params.6 as int,
                    )
                    &&& maze@.grown_or_same(
                        #[trigger] Grid::fresh(params.0 as int, params.1 as int).with_rooms(placed),
                        true,
                    )
                }
        },
{
    let (rows, cols, rooms, min_w, min_h, max_w, max_h) = params;
    let ghost fresh = Grid::fresh(rows as int, cols as int);
    proof {
        lemma_fresh_growth_error(rows as int, cols as int);
    }
    let mut m = Maze::new(rows, cols);
    let generated = if rooms == 0 && min_w == 0 && min_h == 0 && max_w == 0 && max_h == 0 {
        let generated = m.generate_perfect(rng);
        proof {
            let none = Seq::<Room>::empty();
            assert(fresh.placement(none, min_w as int, max_w as int, min_h as int, max_h as int));
            assert(fresh.with_rooms(none) == fresh);
        }
        generated
    } else {
        let generated = m.generate((rooms, min_w, max_w, min_h, max_h), rng);
        proof {
            if generated is Ok && rooms == 0 {
                let placed = choose|placed: Seq<Room>|
                    {
                        &&& placed.len() <= rooms
                        &&& rooms > 0 && fresh.no_rooms() ==> placed.len() >= 1
                        &&& fresh.placement(
                            placed,
                            min_w as int,
                            max_w as int,
                            min_h as int,
                            max_h as int,
                        )
                        &&& m@.grown_or_same(#[trigger] fresh.with_rooms(placed), true)
                    };
                assert(fresh.with_rooms(placed) == fresh);
                if rows != 0 && cols != 0 {
                    lemma_grown_from_fresh(fresh, m@);
                }
            }
        }
        generated
    };
    match generated {
        Ok(()) => Ok(m),
        Err(e) => Err(e),
    }
}

} // verus!
