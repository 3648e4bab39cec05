use mazegame::constants::{DIR_EAST, DIR_SOUTH, ID_MAZE_PATH};
use mazegame::maze::Maze;
use rand::SeedableRng;

#[test]
fn fresh_maze_is_drawn_with_every_wall() {
    let maze = Maze::new(2, 3);
    let expected = vec!["XXXXXXX", "X X X X", "XXXXXXX", "X X X X", "XXXXXXX"];
    assert_eq!(expected, maze.render());
}

#[test]
fn empty_maze_is_drawn_as_its_border() {
    assert_eq!(vec!["X"], Maze::new(0, 0).render());
    assert_eq!(vec!["XXXXX"], Maze::new(0, 2).render());
    assert_eq!(vec!["X", "X", "X", "X", "X"], Maze::new(2, 0).render());
}

#[test]
fn broken_walls_are_drawn_as_blanks() {
    let mut maze = Maze::new(2, 3);
    assert_eq!(Ok(()), maze.carve(0, 0, DIR_EAST, ID_MAZE_PATH, false));
    assert_eq!(Ok(()), maze.carve(1, 0, DIR_SOUTH, ID_MAZE_PATH, false));
    assert_eq!(Ok(()), maze.carve(1, 1, DIR_EAST, ID_MAZE_PATH, false));
    assert_eq!(
        vec!["XXXXXXX", "X   X X", "XXX XXX", "X X   X", "XXXXXXX"],
        maze.render()
    );
}

#[test]
fn posts_inside_a_room_are_left_out() {
    let mut maze = Maze::new(4, 4);
    maze.carve_room(1, 1, 2, 2, 1);
    let expected = vec![
        "XXXXXXXXX",
        "X X X X X",
        "XXXXXXXXX",
        "X X   X X",
        "XXX   XXX",
        "X X   X X",
        "XXXXXXXXX",
        "X X X X X",
        "XXXXXXXXX",
    ];
    assert_eq!(expected, maze.render());
}

#[test]
fn posts_between_corridors_are_drawn() {
    let mut maze = Maze::new(4, 4);
    // the same walls as a room, but marked as corridor
    maze.carve_room(1, 1, 2, 2, ID_MAZE_PATH);
    let expected = vec![
        "XXXXXXXXX",
        "X X X X X",
        "XXXXXXXXX",
        "X X   X X",
        "XXX X XXX",
        "X X   X X",
        "XXXXXXXXX",
        "X X X X X",
        "XXXXXXXXX",
    ];
    assert_eq!(expected, maze.render());
}

#[test]
fn post_at_the_east_end_of_a_row_is_drawn() {
    let mut maze = Maze::new(2, 2);
    // both squares of the east column belong to room 1, and so does the
    // first square of the next row
    assert_eq!(Ok(()), maze.carve(1, 0, DIR_SOUTH, 1, false));
    maze.sq[2].id = 1;
    let expected = vec!["XXXXX", "X X X", "XXX X", "X X X", "XXXXX"];
    assert_eq!(expected, maze.render());
}

#[test]
fn generated_maze_is_drawn_with_a_closed_border() {
    let mut maze = Maze::new(7, 12);
    let mut rng = rand::rngs::StdRng::seed_from_u64(17);
    assert_eq!(Ok(()), maze.generate((3, 2, 3, 2, 2), &mut rng));
    let lines = maze.render();
    assert_eq!(2 * 7 + 1, lines.len());
    for line in lines.iter() {
        assert_eq!(2 * 12 + 1, line.len());
        assert!(line.starts_with('X'));
        assert!(line.ends_with('X'));
        assert!(line.chars().all(|c| c == 'X' || c == ' '));
    }
    assert_eq!("X".repeat(25), lines[0]);
    assert_eq!("X".repeat(25), lines[14]);
    // every square shows its floor
    for y in 0..7 {
        let side: Vec<char> = lines[2 * y + 1].chars().collect();
        for x in 0..12 {
            assert_eq!(' ', side[2 * x + 1]);
        }
    }
}
