use maze_generator::maze::{cell_class, step};
use maze_generator::{ConfigError, Direction, Maze};

#[test]
fn new_refuses_an_empty_grid() {
    assert_eq!(Maze::new(0, 5, 1).err(), Some(ConfigError::EmptyGrid));
    assert_eq!(Maze::new(5, 0, 1).err(), Some(ConfigError::EmptyGrid));
    assert_eq!(Maze::new(0, 0, 0).err(), Some(ConfigError::EmptyGrid));
}

#[test]
fn new_refuses_an_empty_zone() {
    assert_eq!(Maze::new(5, 5, 0).err(), Some(ConfigError::EmptyZone));
}

#[test]
fn new_refuses_a_zone_of_half_the_grid() {
    assert_eq!(Maze::new(5, 5, 3).err(), Some(ConfigError::ZoneTooLarge));
    assert_eq!(Maze::new(4, 4, 2).err(), Some(ConfigError::ZoneTooLarge));
    assert_eq!(Maze::new(2, 2, 1).err(), Some(ConfigError::ZoneTooLarge));
    assert_eq!(Maze::new(10, 6, 3).err(), Some(ConfigError::ZoneTooLarge));
    assert_eq!(Maze::new(6, 10, 3).err(), Some(ConfigError::ZoneTooLarge));
    assert_eq!(Maze::new(5, 5, u32::MAX).err(), Some(ConfigError::ZoneTooLarge));
}

#[test]
fn new_accepts_a_zone_below_half_the_grid() {
    assert!(Maze::new(5, 5, 2).is_ok());
    assert!(Maze::new(3, 3, 1).is_ok());
    assert!(Maze::new(7, 10, 3).is_ok());
}

#[test]
fn new_maze_reports_its_sizes() {
    let maze = Maze::new(5, 7, 2).unwrap();
    assert_eq!(maze.x_size(), 5);
    assert_eq!(maze.y_size(), 7);
    assert_eq!(maze.start_finish_size(), 2);
    assert_eq!(maze.start(), (0, 1));
    assert!(!maze.goal_reached());
    assert_eq!(maze.finish(), None);
}

#[test]
fn new_maze_is_untouched() {
    let maze = Maze::new(6, 5, 2).unwrap();
    for x in 0..6u32 {
        for y in 0..5u32 {
            let cell = maze.get_cell(x, y);
            assert_eq!((cell.x, cell.y), (x, y));
            assert!(!cell.visited);
            assert_eq!(cell.edges, [false; 4]);
            assert_eq!(cell.start_area, x < 2 && y < 2);
            assert_eq!(cell.finish_area, x >= 4 && y >= 3);
        }
    }
}

#[test]
fn cell_class_is_zero_inside_the_disc() {
    assert_eq!(cell_class(5, 5, 10, 10), 0);
    assert_eq!(cell_class(2, 5, 10, 10), 0);
    assert_eq!(cell_class(2, 3, 10, 10), 0);
    assert_eq!(cell_class(8, 5, 10, 10), 0);
}

#[test]
fn cell_class_is_one_outside_the_disc() {
    assert_eq!(cell_class(0, 0, 10, 10), 1);
    assert_eq!(cell_class(1, 5, 10, 10), 1);
    assert_eq!(cell_class(2, 2, 10, 10), 1);
    assert_eq!(cell_class(9, 5, 10, 10), 1);
}

#[test]
fn cell_class_scales_both_axes_by_the_width() {
    // 4 columns, 40 rows: only the rows near the middle meet the disc.
    assert_eq!(cell_class(2, 20, 4, 40), 0);
    assert_eq!(cell_class(2, 21, 4, 40), 0);
    assert_eq!(cell_class(2, 22, 4, 40), 1);
    assert_eq!(cell_class(2, 18, 4, 40), 1);
    assert_eq!(cell_class(0, 20, 4, 40), 1);
}

#[test]
fn cell_class_copes_with_the_largest_grid() {
    assert_eq!(cell_class(0, 0, u32::MAX, u32::MAX), 1);
    assert_eq!(cell_class(u32::MAX / 2, u32::MAX / 2, u32::MAX, u32::MAX), 0);
    assert_eq!(cell_class(u32::MAX - 1, u32::MAX - 1, u32::MAX, u32::MAX), 1);
}

#[test]
fn new_maze_holds_the_class_of_each_cell() {
    let maze = Maze::new(10, 10, 2).unwrap();
    for x in 0..10u32 {
        for y in 0..10u32 {
            let dx = 2 * x as i64 - 10;
            let dy = 2 * y as i64 - 10;
            let expected = if 5 * (dx * dx + dy * dy) < 300 { 0 } else { 1 };
            assert_eq!(maze.get_cell(x, y).cell_type, expected);
        }
    }
}

#[test]
fn step_moves_one_cell() {
    assert_eq!(step(3, 4, &Direction::North), (3, 5));
    assert_eq!(step(3, 4, &Direction::East), (4, 4));
    assert_eq!(step(3, 4, &Direction::South), (3, 3));
    assert_eq!(step(3, 4, &Direction::West), (2, 4));
}

#[test]
fn get_adjacent_stops_at_the_border() {
    let maze = Maze::new(5, 6, 1).unwrap();
    assert!(maze.get_adjacent(0, 0, &Direction::South).is_none());
    assert!(maze.get_adjacent(0, 0, &Direction::West).is_none());
    assert!(maze.get_adjacent(4, 5, &Direction::North).is_none());
    assert!(maze.get_adjacent(4, 5, &Direction::East).is_none());
    assert!(maze.get_adjacent(2, 5, &Direction::North).is_none());
    assert!(maze.get_adjacent(4, 2, &Direction::East).is_none());
}

#[test]
fn get_adjacent_gives_the_neighbour() {
    let maze = Maze::new(5, 6, 1).unwrap();
    let north = maze.get_adjacent(2, 3, &Direction::North).unwrap();
    assert_eq!((north.x, north.y), (2, 4));
    let east = maze.get_adjacent(2, 3, &Direction::East).unwrap();
    assert_eq!((east.x, east.y), (3, 3));
    let south = maze.get_adjacent(2, 3, &Direction::South).unwrap();
    assert_eq!((south.x, south.y), (2, 2));
    let west = maze.get_adjacent(2, 3, &Direction::West).unwrap();
    assert_eq!((west.x, west.y), (1, 3));
}

#[test]
fn is_valid_refuses_the_border_and_the_start_zone() {
    let maze = Maze::new(6, 6, 2).unwrap();
    // The start cell is (0, 1); the start zone is the square below (2, 2).
    assert!(!maze.is_valid(0, 1, &Direction::West));
    assert!(!maze.is_valid(0, 1, &Direction::South));
    assert!(!maze.is_valid(0, 1, &Direction::East));
    assert!(maze.is_valid(0, 1, &Direction::North));
    assert!(!maze.is_valid(2, 0, &Direction::West));
    assert!(!maze.is_valid(1, 2, &Direction::South));
    assert!(maze.is_valid(2, 2, &Direction::East));
}

#[test]
fn is_valid_refuses_a_visited_cell() {
    let mut maze = Maze::new(5, 5, 1).unwrap();
    assert!(maze.is_valid(0, 0, &Direction::North));
    maze.record_edge(0, 0, &Direction::North);
    assert!(!maze.is_valid(0, 0, &Direction::North));
    assert!(maze.is_valid(0, 1, &Direction::North));
    assert!(maze.is_valid(0, 1, &Direction::East));
    assert!(!maze.is_valid(0, 1, &Direction::South));
    maze.record_edge(0, 1, &Direction::East);
    assert!(!maze.is_valid(0, 1, &Direction::East));
    assert!(!maze.is_valid(1, 0, &Direction::North));
    assert!(!maze.is_valid(1, 2, &Direction::South));
}

#[test]
fn is_valid_admits_the_finish_zone_once() {
    let mut maze = Maze::new(3, 3, 1).unwrap();
    maze.record_edge(0, 0, &Direction::North);
    maze.record_edge(0, 1, &Direction::North);
    maze.record_edge(0, 2, &Direction::East);
    assert!(maze.is_valid(1, 2, &Direction::East));
    maze.record_edge(1, 2, &Direction::East);
    assert!(maze.goal_reached());
    assert_eq!(maze.finish(), Some((2, 2)));
    assert!(!maze.is_valid(1, 2, &Direction::East));
}

#[test]
fn the_finish_zone_is_closed_after_the_goal() {
    let mut maze = Maze::new(7, 7, 2).unwrap();
    // The finish zone is the square from (5, 5) on.
    maze.record_edge(0, 1, &Direction::North);
    maze.record_edge(0, 2, &Direction::North);
    maze.record_edge(0, 3, &Direction::North);
    maze.record_edge(0, 4, &Direction::North);
    maze.record_edge(0, 5, &Direction::East);
    maze.record_edge(1, 5, &Direction::East);
    maze.record_edge(2, 5, &Direction::East);
    maze.record_edge(3, 5, &Direction::East);
    assert!(maze.is_valid(4, 5, &Direction::East));
    maze.record_edge(4, 5, &Direction::North);
    assert!(maze.is_valid(4, 6, &Direction::East));
    maze.record_edge(4, 5, &Direction::East);
    assert!(maze.goal_reached());
    assert_eq!(maze.finish(), Some((5, 5)));
    assert!(!maze.is_valid(4, 6, &Direction::East));
    assert!(!maze.get_cell(5, 6).visited);
}

#[test]
fn record_edge_sets_the_edge_and_the_visit() {
    let mut maze = Maze::new(5, 5, 1).unwrap();
    maze.record_edge(0, 0, &Direction::East);
    let from = maze.get_cell(0, 0);
    let to = maze.get_cell(1, 0);
    assert_eq!(from.edges, [false, true, false, false]);
    assert!(from.has_edge(&Direction::East));
    assert!(!from.has_edge(&Direction::North));
    assert!(!from.visited);
    assert!(to.visited);
    assert_eq!(to.edges, [false; 4]);
    assert!(!maze.goal_reached());
    for x in 0..5u32 {
        for y in 0..5u32 {
            if (x, y) != (0, 0) && (x, y) != (1, 0) {
                let cell = maze.get_cell(x, y);
                assert!(!cell.visited);
                assert_eq!(cell.edges, [false; 4]);
            }
        }
    }
}

#[test]
fn get_previous_direction_is_none_without_an_incoming_edge() {
    let mut maze = Maze::new(5, 5, 1).unwrap();
    assert_eq!(maze.get_previous_direction(0, 0), None);
    assert_eq!(maze.get_previous_direction(2, 2), None);
    maze.record_edge(0, 0, &Direction::North);
    assert_eq!(maze.get_previous_direction(0, 0), None);
    assert_eq!(maze.get_previous_direction(1, 1), None);
}

#[test]
fn get_previous_direction_is_that_of_the_incoming_edge() {
    let mut maze = Maze::new(5, 5, 1).unwrap();
    maze.record_edge(0, 0, &Direction::North);
    assert_eq!(maze.get_previous_direction(0, 1), Some(Direction::North));
    maze.record_edge(0, 1, &Direction::East);
    assert_eq!(maze.get_previous_direction(1, 1), Some(Direction::East));
    maze.record_edge(1, 1, &Direction::South);
    assert_eq!(maze.get_previous_direction(1, 0), Some(Direction::South));
    maze.record_edge(1, 1, &Direction::East);
    maze.record_edge(2, 1, &Direction::North);
    maze.record_edge(2, 2, &Direction::West);
    assert_eq!(maze.get_previous_direction(1, 2), Some(Direction::West));
}

#[test]
fn get_previous_cell_steps_back_along_the_incoming_edge() {
    let mut maze = Maze::new(5, 5, 1).unwrap();
    maze.record_edge(0, 0, &Direction::North);
    maze.record_edge(0, 1, &Direction::East);
    maze.record_edge(1, 1, &Direction::South);
    let back = maze.get_previous_cell(1, 0);
    assert_eq!((back.x, back.y), (1, 1));
    let back = maze.get_previous_cell(1, 1);
    assert_eq!((back.x, back.y), (0, 1));
    let back = maze.get_previous_cell(0, 1);
    assert_eq!((back.x, back.y), (0, 0));
}

#[test]
fn solution_path_is_none_before_the_goal() {
    let mut maze = Maze::new(5, 5, 1).unwrap();
    assert!(maze.solution_path().is_none());
    maze.record_edge(0, 0, &Direction::North);
    assert!(maze.solution_path().is_none());
}

#[test]
fn solution_path_follows_recorded_edges() {
    let mut maze = Maze::new(3, 3, 1).unwrap();
    maze.record_edge(0, 0, &Direction::East);
    maze.record_edge(1, 0, &Direction::North);
    maze.record_edge(1, 1, &Direction::West);
    maze.record_edge(1, 1, &Direction::East);
    maze.record_edge(2, 1, &Direction::North);
    let path = maze.solution_path().unwrap();
    let positions: Vec<(u32, u32)> = path.iter().map(|cell| (cell.x, cell.y)).collect();
    assert_eq!(positions, vec![(0, 0), (1, 0), (1, 1), (2, 1), (2, 2)]);
}

#[test]
fn walls_surround_a_new_maze() {
    let maze = Maze::new(5, 4, 1).unwrap();
    for x in -2..7i64 {
        for y in -2..6i64 {
            let inside_x = 0 <= x && x < 5;
            let inside_y = 0 <= y && y < 4;
            assert_eq!(maze.wall_above(x, y), inside_x && -1 <= y && y < 4);
            assert_eq!(maze.wall_right(x, y), inside_y && -1 <= x && x < 5);
        }
    }
}

#[test]
fn walls_open_where_an_edge_runs() {
    let mut maze = Maze::new(5, 5, 1).unwrap();
    maze.record_edge(0, 0, &Direction::North);
    maze.record_edge(0, 1, &Direction::East);
    maze.record_edge(1, 1, &Direction::South);
    maze.record_edge(1, 1, &Direction::East);
    maze.record_edge(2, 1, &Direction::North);
    maze.record_edge(2, 2, &Direction::West);
    assert!(!maze.wall_above(0, 0));
    assert!(!maze.wall_right(0, 1));
    assert!(!maze.wall_above(1, 0));
    assert!(!maze.wall_right(1, 1));
    assert!(!maze.wall_above(2, 1));
    assert!(!maze.wall_right(1, 2));
    assert!(maze.wall_right(0, 0));
    assert!(maze.wall_above(0, 1));
    assert!(maze.wall_above(1, 1));
    assert!(maze.wall_right(2, 1));
    // The borders stay.
    assert!(maze.wall_above(0, -1));
    assert!(maze.wall_above(0, 4));
    assert!(maze.wall_right(-1, 0));
    assert!(maze.wall_right(4, 0));
}

#[test]
fn walls_are_left_out_inside_the_zones() {
    let maze = Maze::new(7, 7, 2).unwrap();
    // The start zone covers (0, 0) to (1, 1), the finish zone (5, 5) to (6, 6).
    assert!(!maze.wall_above(0, 0));
    assert!(!maze.wall_right(0, 0));
    assert!(!maze.wall_above(1, 0));
    assert!(!maze.wall_right(0, 1));
    assert!(maze.wall_above(0, 1));
    assert!(maze.wall_right(1, 1));
    assert!(!maze.wall_above(5, 5));
    assert!(!maze.wall_right(5, 5));
    assert!(!maze.wall_right(5, 6));
    assert!(maze.wall_right(4, 5));
    assert!(maze.wall_above(5, 4));
}
