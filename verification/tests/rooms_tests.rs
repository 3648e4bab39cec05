use mazegame::constants::{DIR_EAST, ID_MAZE_PATH, ID_UNCARVED};
use mazegame::maze::Maze;
use rand::rngs::StdRng;
use rand::SeedableRng;

/// Whether two squares that belong to rooms with different ids touch, across
/// a side or across a corner.
fn rooms_touch(maze: &Maze) -> bool {
    let rows = maze.get_rows() as i64;
    let cols = maze.get_cols() as i64;
    for y in 0..rows {
        for x in 0..cols {
            let here = &maze.sq[maze.get_offset(x as u32, y as u32)];
            if !here.is_part_of_room() {
                continue;
            }
            for dy in -1..2i64 {
                for dx in -1..2i64 {
                    let nx = x + dx;
                    let ny = y + dy;
                    if nx < 0 || ny < 0 || nx >= cols || ny >= rows {
                        continue;
                    }
                    let there = &maze.sq[maze.get_offset(nx as u32, ny as u32)];
                    if there.is_part_of_room() && there.id != here.id {
                        return true;
                    }
                }
            }
        }
    }
    false
}

#[test]
fn carve_room_opens_the_inside_and_keeps_the_outside() {
    let mut maze = Maze::new(8, 10);
    // 3 wide, 2 high, top left square (2, 3)
    maze.carve_room(2, 3, 3, 2, 1);
    let expected = [
        ((2u32, 3u32), [true, false, false, true]),
        ((3, 3), [true, false, false, false]),
        ((4, 3), [true, false, true, false]),
        ((2, 4), [false, true, false, true]),
        ((3, 4), [false, true, false, false]),
        ((4, 4), [false, true, true, false]),
    ];
    for &((x, y), walls) in expected.iter() {
        let sq = &maze.sq[maze.get_offset(x, y)];
        assert_eq!(walls, sq.wall_present);
        assert_eq!(1, sq.id);
    }
    for y in 0..8 {
        for x in 0..10 {
            if x >= 2 && x < 5 && y >= 3 && y < 5 {
                continue;
            }
            let sq = &maze.sq[maze.get_offset(x, y)];
            assert_eq!([true, true, true, true], sq.wall_present);
            assert_eq!(ID_UNCARVED, sq.id);
        }
    }
}

#[test]
fn carve_room_of_one_square_marks_it() {
    let mut maze = Maze::new(5, 5);
    maze.carve_room(2, 2, 1, 1, 3);
    for y in 0..5 {
        for x in 0..5 {
            let sq = &maze.sq[maze.get_offset(x, y)];
            assert_eq!([true, true, true, true], sq.wall_present);
            assert_eq!(if x == 2 && y == 2 { 3 } else { ID_UNCARVED }, sq.id);
        }
    }
    assert!(maze.sq[maze.get_offset(2, 2)].is_part_of_room());
    assert!(!maze.sq[maze.get_offset(2, 2)].is_carved());
}

#[test]
fn carve_room_without_squares_changes_nothing() {
    let mut maze = Maze::new(5, 5);
    maze.carve_room(1, 1, 0, 2, 4);
    maze.carve_room(1, 1, 2, 0, 4);
    maze.carve_room(3, 3, 0, 0, 4);
    for sq in maze.sq.iter() {
        assert_eq!([true, true, true, true], sq.wall_present);
        assert_eq!(ID_UNCARVED, sq.id);
    }
}

#[test]
fn carve_room_marks_every_square_of_the_room() {
    for &(w, h) in [(1u32, 1u32), (1, 3), (3, 1), (2, 2), (4, 3)].iter() {
        let mut maze = Maze::new(8, 8);
        maze.carve_room(2, 3, w, h, 6);
        for y in 0..8 {
            for x in 0..8 {
                let inside = x >= 2 && x < 2 + w && y >= 3 && y < 3 + h;
                let sq = &maze.sq[maze.get_offset(x, y)];
                assert_eq!(if inside { 6 } else { ID_UNCARVED }, sq.id);
                assert_eq!(inside && w * h > 1, sq.is_carved());
            }
        }
    }
}

#[test]
fn carve_room_of_one_row() {
    let mut maze = Maze::new(3, 5);
    maze.carve_room(1, 1, 3, 1, 2);
    assert_eq!([true, true, false, true], maze.sq[maze.get_offset(1, 1)].wall_present);
    assert_eq!([true, true, false, false], maze.sq[maze.get_offset(2, 1)].wall_present);
    assert_eq!([true, true, true, false], maze.sq[maze.get_offset(3, 1)].wall_present);
    assert_eq!(2, maze.sq[maze.get_offset(1, 1)].id);
    assert_eq!(2, maze.sq[maze.get_offset(2, 1)].id);
    assert_eq!(2, maze.sq[maze.get_offset(3, 1)].id);
    assert_eq!(ID_UNCARVED, maze.sq[maze.get_offset(0, 1)].id);
    assert_eq!(ID_UNCARVED, maze.sq[maze.get_offset(4, 1)].id);
}

#[test]
fn rooms_overlap_looks_at_the_margin() {
    let mut maze = Maze::new(12, 12);
    assert_eq!(false, maze.rooms_overlap(1, 1, 10, 10));
    maze.carve_room(4, 4, 2, 2, 1);
    // the room fills the squares 4..=5 by 4..=5
    assert_eq!(true, maze.rooms_overlap(4, 4, 2, 2));
    assert_eq!(true, maze.rooms_overlap(5, 5, 3, 3));
    // touching across a side or a corner counts
    assert_eq!(true, maze.rooms_overlap(6, 4, 2, 2));
    assert_eq!(true, maze.rooms_overlap(6, 6, 2, 2));
    assert_eq!(true, maze.rooms_overlap(2, 2, 2, 2));
    assert_eq!(true, maze.rooms_overlap(1, 6, 3, 2));
    // one square in between is enough
    assert_eq!(false, maze.rooms_overlap(7, 4, 2, 2));
    assert_eq!(false, maze.rooms_overlap(7, 7, 2, 2));
    assert_eq!(false, maze.rooms_overlap(1, 1, 2, 2));
    assert_eq!(false, maze.rooms_overlap(4, 7, 2, 3));
    assert_eq!(false, maze.rooms_overlap(1, 4, 2, 2));
    // a corridor is no room
    let mut maze = Maze::new(6, 6);
    assert_eq!(Ok(()), maze.carve(2, 2, DIR_EAST, ID_MAZE_PATH, false));
    assert_eq!(false, maze.rooms_overlap(1, 1, 4, 4));
}

#[test]
fn try_place_room_drops_a_room_that_overlaps() {
    let mut maze = Maze::new(12, 12);
    assert_eq!(true, maze.try_place_room(2, 2, 3, 3, 1));
    let before = maze.render();
    let ids: Vec<i32> = maze.sq.iter().map(|sq| sq.id).collect();
    assert_eq!(false, maze.try_place_room(5, 5, 3, 3, 2));
    assert_eq!(false, maze.try_place_room(1, 1, 2, 2, 2));
    assert_eq!(before, maze.render());
    assert_eq!(ids, maze.sq.iter().map(|sq| sq.id).collect::<Vec<i32>>());
    assert_eq!(true, maze.try_place_room(6, 6, 3, 3, 2));
    for y in 0..12 {
        for x in 0..12 {
            let sq = &maze.sq[maze.get_offset(x, y)];
            let expected = if x >= 2 && x < 5 && y >= 2 && y < 5 {
                1
            } else if x >= 6 && x < 9 && y >= 6 && y < 9 {
                2
            } else {
                ID_UNCARVED
            };
            assert_eq!(expected, sq.id);
        }
    }
    assert_eq!(false, rooms_touch(&maze));
}

#[test]
fn make_rooms_keeps_rooms_apart_and_off_the_boundary() {
    for seed in 0..20u64 {
        let mut maze = Maze::new(20, 25);
        let mut rng = StdRng::seed_from_u64(seed);
        let placed = maze.make_rooms(12, 2, 4, 2, 3, &mut rng);
        assert!(placed >= 1);
        assert!(placed <= 12);
        assert_eq!(false, rooms_touch(&maze));
        let mut seen = vec![0u32; placed as usize + 1];
        for y in 0..20 {
            for x in 0..25 {
                let sq = &maze.sq[maze.get_offset(x, y)];
                if x == 0 || y == 0 || x == 24 || y == 19 {
                    assert_eq!([true, true, true, true], sq.wall_present);
                    assert_eq!(ID_UNCARVED, sq.id);
                }
                if sq.is_carved() {
                    assert!(sq.id >= 1);
                    assert!(sq.id as u32 <= placed);
                    seen[sq.id as usize] += 1;
                } else {
                    assert_eq!(ID_UNCARVED, sq.id);
                }
            }
        }
        // every room that was counted is there, with 4 to 12 squares
        for id in 1..placed as usize + 1 {
            assert!(seen[id] >= 4);
            assert!(seen[id] <= 12);
        }
    }
}

#[test]
fn make_rooms_numbers_rooms_from_one() {
    let mut maze = Maze::new(6, 6);
    let mut rng = StdRng::seed_from_u64(8);
    // a room of 4 by 4 fits in one place only; the second try overlaps
    let placed = maze.make_rooms(2, 4, 4, 4, 4, &mut rng);
    assert_eq!(1, placed);
    for y in 0..6 {
        for x in 0..6 {
            let sq = &maze.sq[maze.get_offset(x, y)];
            let inside = x >= 1 && x <= 4 && y >= 1 && y <= 4;
            assert_eq!(if inside { 1 } else { ID_UNCARVED }, sq.id);
            assert_eq!(inside, sq.is_carved());
        }
    }
}

#[test]
fn make_rooms_without_tries_does_nothing() {
    let mut maze = Maze::new(3, 3);
    let mut rng = StdRng::seed_from_u64(8);
    assert_eq!(0, maze.make_rooms(0, 5, 1, 9, 2, &mut rng));
    for sq in maze.sq.iter() {
        assert_eq!([true, true, true, true], sq.wall_present);
        assert_eq!(ID_UNCARVED, sq.id);
    }
}

#[test]
fn generate_with_rooms_fills_the_rest_with_corridors() {
    for seed in 0..10u64 {
        let mut maze = Maze::new(16, 16);
        let mut rng = StdRng::seed_from_u64(seed);
        assert_eq!(Ok(()), maze.generate((6, 2, 3, 2, 3), &mut rng));
        assert_eq!(false, rooms_touch(&maze));
        let mut rooms = 0;
        for sq in maze.sq.iter() {
            assert!(sq.is_carved());
            assert!(sq.id == ID_MAZE_PATH || sq.id >= 1);
            if sq.is_part_of_room() {
                rooms += 1;
            }
        }
        assert!(rooms >= 4);
        assert_eq!(ID_MAZE_PATH, maze.sq[0].id);
    }
}

#[test]
fn rooms_of_one_square_do_not_share_a_square() {
    let mut maze = Maze::new(3, 3);
    let mut rng = StdRng::seed_from_u64(4);
    // the only place for a room of one square is (1, 1): the first try
    // takes it, and every later try overlaps
    assert_eq!(1, maze.make_rooms(5, 1, 1, 1, 1, &mut rng));
    for y in 0..3 {
        for x in 0..3 {
            let sq = &maze.sq[maze.get_offset(x, y)];
            assert_eq!([true, true, true, true], sq.wall_present);
            assert_eq!(if x == 1 && y == 1 { 1 } else { ID_UNCARVED }, sq.id);
        }
    }
}

#[test]
fn a_room_is_not_placed_on_a_room_of_one_square() {
    let mut maze = Maze::new(10, 10);
    assert_eq!(true, maze.try_place_room(3, 3, 1, 1, 1));
    assert_eq!(false, maze.try_place_room(3, 3, 2, 2, 2));
    assert_eq!(false, maze.try_place_room(4, 4, 1, 1, 2));
    assert_eq!(false, maze.try_place_room(2, 2, 1, 1, 2));
    assert_eq!(true, maze.rooms_overlap(1, 1, 2, 2));
    assert_eq!(true, maze.try_place_room(5, 3, 1, 1, 2));
    assert_eq!(1, maze.sq[maze.get_offset(3, 3)].id);
    assert_eq!(2, maze.sq[maze.get_offset(5, 3)].id);
    assert_eq!(false, rooms_touch(&maze));
}

#[test]
fn rooms_of_one_square_keep_apart() {
    for seed in 0..20u64 {
        let mut maze = Maze::new(9, 9);
        let mut rng = StdRng::seed_from_u64(seed);
        let placed = maze.make_rooms(30, 1, 1, 1, 1, &mut rng);
        assert!(placed >= 1);
        assert_eq!(false, rooms_touch(&maze));
        let marked = maze.sq.iter().filter(|sq| sq.is_part_of_room()).count();
        assert_eq!(placed as usize, marked);
        for sq in maze.sq.iter() {
            assert!(!sq.is_carved());
            assert!(sq.id >= 0 && sq.id as u32 <= placed);
        }
    }
}

#[test]
fn the_walk_enters_a_room_of_one_square() {
    for seed in 0..20u64 {
        let mut maze = Maze::new(3, 3);
        let mut rng = StdRng::seed_from_u64(seed);
        assert_eq!(true, maze.try_place_room(1, 1, 1, 1, 5));
        assert_eq!(Ok(()), maze.generate_perfect(&mut rng));
        let mut missing = 0;
        for dir in 0..4u32 {
            if !maze.sq[4].is_wall_present(dir) {
                missing += 1;
            }
        }
        assert!(missing >= 1);
        // the square keeps its id unless the walk went on from it
        assert_eq!(if missing == 1 { 5 } else { ID_MAZE_PATH }, maze.sq[4].id);
        for (i, sq) in maze.sq.iter().enumerate() {
            assert!(sq.is_carved());
            if i != 4 {
                assert_eq!(ID_MAZE_PATH, sq.id);
            }
        }
    }
}

#[test]
fn generate_keeps_the_rooms_when_the_corridors_cannot_start() {
    let mut maze = Maze::new(6, 6);
    let mut rng = StdRng::seed_from_u64(4);
    // both neighbours of the corner (0, 0) are carved, away from the corner
    assert_eq!(Ok(()), maze.carve(1, 0, DIR_EAST, ID_MAZE_PATH, false));
    assert_eq!(Ok(()), maze.carve(0, 1, mazegame::constants::DIR_SOUTH, ID_MAZE_PATH, false));
    assert_eq!(
        Err(mazegame::MazeError::NoInitialDirection { x: 0, y: 0 }),
        maze.generate((1, 2, 2, 2, 2), &mut rng)
    );
    let mut room_squares = 0;
    for sq in maze.sq.iter() {
        if sq.id == 1 {
            room_squares += 1;
            assert!(sq.is_carved());
        }
    }
    assert_eq!(4, room_squares);
    assert_eq!([true, true, true, true], maze.sq[0].wall_present);
}
