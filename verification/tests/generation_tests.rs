use mazegame::constants::{
    DIR_EAST, DIR_NORTH, DIR_SOUTH, DIR_WEST, ID_MAZE_PATH, ID_UNCARVED,
};
use mazegame::maze::Maze;
use mazegame::{run, MazeError};
use rand::rngs::StdRng;
use rand::SeedableRng;

/// The neighbour of `(x, y)` towards `dir`, if it lies inside the maze.
fn neighbour(maze: &Maze, x: u32, y: u32, dir: u32) -> Option<(u32, u32)> {
    if dir == DIR_NORTH && y > 0 {
        Some((x, y - 1))
    } else if dir == DIR_SOUTH && y + 1 < maze.get_rows() {
        Some((x, y + 1))
    } else if dir == DIR_EAST && x + 1 < maze.get_cols() {
        Some((x + 1, y))
    } else if dir == DIR_WEST && x > 0 {
        Some((x - 1, y))
    } else {
        None
    }
}

fn opposite(dir: u32) -> u32 {
    if dir == DIR_NORTH {
        DIR_SOUTH
    } else if dir == DIR_SOUTH {
        DIR_NORTH
    } else if dir == DIR_EAST {
        DIR_WEST
    } else {
        DIR_EAST
    }
}

/// Counts the squares that a flood fill from `(x, y)` visits, walking only
/// through walls that are broken from both sides.
fn flood_fill(maze: &Maze, x: u32, y: u32) -> usize {
    let mut seen = vec![false; maze.sq.len()];
    let mut todo = vec![(x, y)];
    seen[maze.get_offset(x, y)] = true;
    let mut count = 0;
    while let Some((cx, cy)) = todo.pop() {
        count += 1;
        for dir in 0..4u32 {
            if let Some((nx, ny)) = neighbour(maze, cx, cy, dir) {
                let here = &maze.sq[maze.get_offset(cx, cy)];
                let there = &maze.sq[maze.get_offset(nx, ny)];
                if !here.is_wall_present(dir) && !there.is_wall_present(opposite(dir))
                    && !seen[maze.get_offset(nx, ny)]
                {
                    seen[maze.get_offset(nx, ny)] = true;
                    todo.push((nx, ny));
                }
            }
        }
    }
    count
}

/// Counts the walls that are gone, over all squares.
fn missing_walls(maze: &Maze) -> usize {
    let mut count = 0;
    for sq in maze.sq.iter() {
        for dir in 0..4u32 {
            if !sq.is_wall_present(dir) {
                count += 1;
            }
        }
    }
    count
}

/// Whether every wall of the outer boundary stands and every wall between
/// two squares is either standing on both sides or gone on both sides.
fn walls_consistent(maze: &Maze) -> bool {
    for y in 0..maze.get_rows() {
        for x in 0..maze.get_cols() {
            let here = &maze.sq[maze.get_offset(x, y)];
            for dir in 0..4u32 {
                match neighbour(maze, x, y, dir) {
                    Some((nx, ny)) => {
                        let there = &maze.sq[maze.get_offset(nx, ny)];
                        if here.is_wall_present(dir) != there.is_wall_present(opposite(dir)) {
                            return false;
                        }
                    }
                    None => {
                        if !here.is_wall_present(dir) {
                            return false;
                        }
                    }
                }
            }
        }
    }
    true
}

#[test]
fn perfect_maze_flood_fill_visits_100_squares() {
    let mut maze = Maze::new(10, 10);
    let mut rng = StdRng::seed_from_u64(7);
    assert_eq!(Ok(()), maze.generate_perfect(&mut rng));
    assert_eq!(100, flood_fill(&maze, 0, 0));
}

#[test]
fn perfect_maze_is_carved_and_connected_from_every_square() {
    let sizes = [(1u32, 2u32), (2, 1), (1, 9), (9, 1), (2, 2), (3, 7), (8, 5), (10, 10), (17, 13)];
    for (n, &(rows, cols)) in sizes.iter().enumerate() {
        for seed in 0..4u64 {
            let mut maze = Maze::new(rows, cols);
            let mut rng = StdRng::seed_from_u64(seed * 31 + n as u64);
            assert_eq!(Ok(()), maze.generate_perfect(&mut rng));
            assert_eq!(rows, maze.get_rows());
            assert_eq!(cols, maze.get_cols());
            assert_eq!((rows * cols) as usize, maze.sq.len());
            for sq in maze.sq.iter() {
                assert!(sq.is_carved());
                assert_eq!(ID_MAZE_PATH, sq.id);
            }
            for y in 0..rows {
                for x in 0..cols {
                    assert_eq!((rows * cols) as usize, flood_fill(&maze, x, y));
                }
            }
            assert!(walls_consistent(&maze));
        }
    }
}

#[test]
fn perfect_maze_has_one_passage_less_than_squares() {
    for seed in 0..5u64 {
        let mut maze = Maze::new(12, 9);
        let mut rng = StdRng::seed_from_u64(seed);
        assert_eq!(Ok(()), maze.generate_perfect(&mut rng));
        // every passage takes one wall from each of two squares
        assert_eq!(2 * (12 * 9 - 1), missing_walls(&maze));
    }
}

#[test]
fn same_seed_gives_the_same_maze() {
    let mut first = Maze::new(9, 11);
    let mut second = Maze::new(9, 11);
    let mut rng_first = StdRng::seed_from_u64(99);
    let mut rng_second = StdRng::seed_from_u64(99);
    assert_eq!(Ok(()), first.generate_perfect(&mut rng_first));
    assert_eq!(Ok(()), second.generate_perfect(&mut rng_second));
    assert_eq!(first.render(), second.render());
}

#[test]
fn single_square_maze_cannot_be_generated() {
    let mut maze = Maze::new(1, 1);
    let mut rng = StdRng::seed_from_u64(1);
    assert_eq!(Err(MazeError::NoInitialDirection { x: 0, y: 0 }), maze.generate_perfect(&mut rng));
    assert_eq!([true, true, true, true], maze.sq[0].wall_present);
    assert_eq!(ID_UNCARVED, maze.sq[0].id);
    assert_eq!(
        Err(MazeError::NoInitialDirection { x: 0, y: 0 }),
        maze.generate((0, 0, 0, 0, 0), &mut rng)
    );
    assert_eq!(
        Err(MazeError::NoInitialDirection { x: 0, y: 0 }),
        maze.generate_growing_tree(0, 0, &mut rng)
    );
}

#[test]
fn generation_over_an_empty_maze_does_nothing() {
    for &(rows, cols) in [(0u32, 0u32), (0, 5), (5, 0)].iter() {
        let mut maze = Maze::new(rows, cols);
        let mut rng = StdRng::seed_from_u64(3);
        assert_eq!(0, maze.sq.len());
        assert_eq!(Ok(()), maze.generate_perfect(&mut rng));
        assert_eq!(Ok(()), maze.generate_growing_tree(0, 0, &mut rng));
        assert_eq!(Ok(()), maze.generate_growing_tree(3, 3, &mut rng));
        assert_eq!(Ok(()), maze.generate((0, 1, 2, 1, 2), &mut rng));
        assert_eq!(0, maze.sq.len());
        assert_eq!(rows, maze.get_rows());
        assert_eq!(cols, maze.get_cols());
        assert_eq!((false, 0), maze.pick_direction(0, 0, &mut rng));
        assert_eq!(
            Err(MazeError::OutOfBounds { x: 0, y: 0 }),
            maze.carve(0, 0, DIR_SOUTH, ID_MAZE_PATH, false)
        );
    }
}

#[test]
fn growing_tree_refuses_a_start_outside_the_maze() {
    let mut maze = Maze::new(4, 6);
    let mut rng = StdRng::seed_from_u64(5);
    assert_eq!(
        Err(MazeError::OutOfBounds { x: 6, y: 0 }),
        maze.generate_growing_tree(6, 0, &mut rng)
    );
    assert_eq!(
        Err(MazeError::OutOfBounds { x: 0, y: 4 }),
        maze.generate_growing_tree(0, 4, &mut rng)
    );
    for sq in maze.sq.iter() {
        assert_eq!([true, true, true, true], sq.wall_present);
        assert_eq!(ID_UNCARVED, sq.id);
    }
}

#[test]
fn growing_tree_refuses_a_start_without_free_neighbours() {
    let mut maze = Maze::new(3, 3);
    let mut rng = StdRng::seed_from_u64(5);
    // carve both neighbours of the corner (0, 0), away from the corner
    assert_eq!(Ok(()), maze.carve(1, 0, DIR_EAST, ID_MAZE_PATH, false));
    assert_eq!(Ok(()), maze.carve(0, 1, DIR_SOUTH, ID_MAZE_PATH, false));
    let before = maze.render();
    assert_eq!(
        Err(MazeError::NoInitialDirection { x: 0, y: 0 }),
        maze.generate_growing_tree(0, 0, &mut rng)
    );
    assert_eq!(before, maze.render());
    assert_eq!([true, true, true, true], maze.sq[0].wall_present);
}

#[test]
fn growing_tree_from_the_middle_reaches_both_ends() {
    for seed in 0..8u64 {
        let mut maze = Maze::new(1, 7);
        let mut rng = StdRng::seed_from_u64(seed);
        assert_eq!(Ok(()), maze.generate_growing_tree(3, 0, &mut rng));
        for sq in maze.sq.iter() {
            assert!(sq.is_carved());
        }
        assert_eq!(7, flood_fill(&maze, 3, 0));
        assert_eq!(7, flood_fill(&maze, 0, 0));
    }
    for seed in 0..8u64 {
        let mut maze = Maze::new(6, 6);
        let mut rng = StdRng::seed_from_u64(seed);
        assert_eq!(Ok(()), maze.generate_growing_tree(2, 4, &mut rng));
        assert_eq!(36, flood_fill(&maze, 5, 5));
        assert_eq!(2 * 35, missing_walls(&maze));
    }
}

#[test]
fn growing_tree_leaves_carved_squares_alone() {
    let mut maze = Maze::new(6, 6);
    let mut rng = StdRng::seed_from_u64(11);
    // a carved pair in the middle, marked as room 4
    assert_eq!(Ok(()), maze.carve(2, 2, DIR_EAST, 4, false));
    assert_eq!(Ok(()), maze.generate_perfect(&mut rng));
    assert_eq!([true, true, false, true], maze.sq[maze.get_offset(2, 2)].wall_present);
    assert_eq!([true, true, true, false], maze.sq[maze.get_offset(3, 2)].wall_present);
    assert_eq!(4, maze.sq[maze.get_offset(2, 2)].id);
    assert_eq!(4, maze.sq[maze.get_offset(3, 2)].id);
    for sq in maze.sq.iter() {
        assert!(sq.is_carved());
    }
    // the corridors do not lead into the pair
    assert_eq!(34, flood_fill(&maze, 0, 0));
    assert_eq!(2, flood_fill(&maze, 2, 2));
}

#[test]
fn growing_tree_keeps_the_id_of_an_uncarved_room_square() {
    let mut maze = Maze::new(1, 3);
    let mut rng = StdRng::seed_from_u64(1);
    // the last square belongs to room 9 but has all its walls
    maze.sq[2].id = 9;
    assert_eq!(Ok(()), maze.generate_perfect(&mut rng));
    assert_eq!(ID_MAZE_PATH, maze.sq[0].id);
    assert_eq!(ID_MAZE_PATH, maze.sq[1].id);
    assert_eq!(9, maze.sq[2].id);
    assert_eq!([true, true, true, false], maze.sq[2].wall_present);
    assert_eq!(3, flood_fill(&maze, 0, 0));
}

#[test]
fn run_builds_a_perfect_maze_without_rooms() {
    let mut rng = StdRng::seed_from_u64(21);
    let maze = run((10, 10, 0, 0, 0, 0, 0), &mut rng).unwrap();
    assert_eq!(10, maze.get_rows());
    assert_eq!(10, maze.get_cols());
    assert_eq!(100, flood_fill(&maze, 0, 0));
    assert_eq!(2 * 99, missing_walls(&maze));

    let maze = run((4, 9, 0, 0, 0, 0, 0), &mut rng).unwrap();
    assert_eq!(4, maze.get_rows());
    assert_eq!(9, maze.get_cols());
    assert_eq!(36, flood_fill(&maze, 8, 3));
}

#[test]
fn run_reports_what_generation_reports() {
    let mut rng = StdRng::seed_from_u64(21);
    let result = run((1, 1, 0, 0, 0, 0, 0), &mut rng);
    assert_eq!(Some(MazeError::NoInitialDirection { x: 0, y: 0 }), result.err());
    let maze = run((0, 0, 0, 0, 0, 0, 0), &mut rng).unwrap();
    assert_eq!(0, maze.sq.len());
}

#[test]
fn run_with_rooms_takes_widths_and_heights_in_the_order_given() {
    for seed in 0..10u64 {
        let mut rng = StdRng::seed_from_u64(seed);
        // rooms are 4 or 5 wide and exactly 2 high; the maze is 6 rows high,
        // so a room of height 4 or 5 would not fit with its margin
        let maze = run((6, 30, 6, 4, 2, 5, 2), &mut rng).unwrap();
        assert_eq!(6, maze.get_rows());
        assert_eq!(30, maze.get_cols());
        let mut room_squares = 0;
        for y in 0..6 {
            for x in 0..30 {
                let sq = &maze.sq[maze.get_offset(x, y)];
                assert!(sq.is_carved());
                if sq.is_part_of_room() {
                    room_squares += 1;
                    assert!(y >= 1 && y <= 4);
                }
            }
        }
        // each room has 8 or 10 squares
        assert!(room_squares >= 8);
        assert!(room_squares <= 60);
    }
}
