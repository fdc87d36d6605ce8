use maze_generator::{Cell, Direction, Draw, Maze, MeanderStrategy};

const ALL: [Direction; 4] = [Direction::North, Direction::East, Direction::South, Direction::West];

fn neighbour(maze: &Maze, x: u32, y: u32, direction: &Direction) -> Option<Cell> {
    maze.get_adjacent(x, y, direction)
}

/// The number of edges that end at `(x, y)`.
fn in_degree(maze: &Maze, x: u32, y: u32) -> usize {
    ALL.iter()
        .filter(|d| match neighbour(maze, x, y, &d.opposite()) {
            Some(source) => source.has_edge(d),
            None => false,
        })
        .count()
}

/// Checks on a maze what the library promises of every maze.
fn check_tree(maze: &Maze) {
    let (width, height) = (maze.x_size(), maze.y_size());
    let start = maze.start();
    let mut finish_cells = Vec::new();
    for x in 0..width {
        for y in 0..height {
            let cell = maze.get_cell(x, y);
            assert_eq!(in_degree(maze, x, y), if cell.visited { 1 } else { 0 });
            if cell.visited {
                assert!(!cell.start_area);
                if cell.finish_area {
                    finish_cells.push((x, y));
                }
                // The incoming edges lead back to the start cell.
                let (mut cx, mut cy) = (x, y);
                let mut steps: u64 = 0;
                while (cx, cy) != start {
                    let back = maze.get_previous_cell(cx, cy);
                    cx = back.x;
                    cy = back.y;
                    steps += 1;
                    assert!(steps <= width as u64 * height as u64);
                }
            }
            for d in ALL {
                if cell.has_edge(&d) {
                    assert!((x, y) == start || (cell.visited && !cell.finish_area));
                    assert!(neighbour(maze, x, y, &d).unwrap().visited);
                }
            }
        }
    }
    assert_eq!(in_degree(maze, start.0, start.1), 0);
    assert!(finish_cells.len() <= 1);
    assert_eq!(maze.goal_reached(), finish_cells.len() == 1);
    assert_eq!(maze.finish(), finish_cells.first().copied());
}

/// Checks that generation on a new maze left nothing unexplored: the goal
/// is reached, every cell outside the two zones is visited, and no cell
/// where a path can stand has a valid move.
fn check_ended(maze: &Maze) {
    assert!(maze.goal_reached());
    assert!(maze.finish().is_some());
    assert!(maze.solution_path().is_some());
    let start = maze.start();
    for cell in cells(maze) {
        if !cell.start_area && !cell.finish_area {
            assert!(cell.visited);
        }
        if (cell.x, cell.y) == start || (cell.visited && !cell.finish_area) {
            for d in ALL {
                assert!(!maze.is_valid(cell.x, cell.y, &d));
            }
        }
    }
    let visited = cells(maze).iter().filter(|cell| cell.visited).count() as u64;
    let zone = maze.start_finish_size() as u64;
    let all = maze.x_size() as u64 * maze.y_size() as u64;
    assert_eq!(visited, all - 2 * zone * zone + 1);
}

fn check_solution(maze: &Maze) {
    let path = maze.solution_path().unwrap();
    let start = maze.start();
    let finish = maze.finish().unwrap();
    assert!(path.len() >= 2);
    assert_eq!((path[0].x, path[0].y), start);
    assert_eq!((path[path.len() - 1].x, path[path.len() - 1].y), finish);
    for i in 0..path.len() - 1 {
        let (from, to) = (path[i], path[i + 1]);
        let joined = ALL.iter().any(|d| {
            from.has_edge(d)
                && match neighbour(maze, from.x, from.y, d) {
                    Some(next) => (next.x, next.y) == (to.x, to.y),
                    None => false,
                }
        });
        assert!(joined);
        assert_eq!(path[i], maze.get_cell(from.x, from.y));
    }
    for i in 0..path.len() {
        for j in i + 1..path.len() {
            assert_ne!((path[i].x, path[i].y), (path[j].x, path[j].y));
        }
    }
}

fn positions(path: &[Cell]) -> Vec<(u32, u32)> {
    path.iter().map(|cell| (cell.x, cell.y)).collect()
}

fn cells(maze: &Maze) -> Vec<Cell> {
    let mut all = Vec::new();
    for x in 0..maze.x_size() {
        for y in 0..maze.y_size() {
            all.push(maze.get_cell(x, y));
        }
    }
    all
}

fn forward_only() -> MeanderStrategy {
    MeanderStrategy::new(0, 0, 1, 0, 0, 0)
}

fn zero() -> MeanderStrategy {
    MeanderStrategy::new(0, 0, 0, 0, 0, 0)
}

fn script(seed: u64, length: usize, branch_every: usize) -> Vec<Draw> {
    let mut state = seed;
    let mut draws = Vec::new();
    for i in 0..length {
        state = state.wrapping_mul(6364136223846793005).wrapping_add(1442695040888963407);
        draws.push(Draw { pick: state >> 33, branch: branch_every != 0 && i % branch_every == 0 });
    }
    draws
}

#[test]
fn advance_steps_to_the_chosen_neighbour() {
    let mut maze = Maze::new(5, 5, 1).unwrap();
    let mut paths = vec![(0, 0)];
    let next = maze.advance(&mut paths, 0, Some(Direction::North), false);
    assert_eq!(next, 1);
    assert_eq!(paths, vec![(0, 1)]);
    assert!(maze.get_cell(0, 0).has_edge(&Direction::North));
    assert!(maze.get_cell(0, 1).visited);
    check_tree(&maze);
}

#[test]
fn advance_leaves_a_new_path_behind_on_a_branch() {
    let mut maze = Maze::new(5, 5, 1).unwrap();
    let mut paths = vec![(0, 0)];
    let next = maze.advance(&mut paths, 0, Some(Direction::North), true);
    assert_eq!(next, 1);
    assert_eq!(paths, vec![(0, 1), (0, 0)]);
    let next = maze.advance(&mut paths, 1, Some(Direction::East), true);
    assert_eq!(next, 2);
    assert_eq!(paths, vec![(0, 1), (1, 0), (0, 0)]);
    check_tree(&maze);
}

#[test]
fn advance_steps_back_without_a_direction() {
    let mut maze = Maze::new(5, 5, 1).unwrap();
    let mut paths = vec![(0, 0)];
    maze.advance(&mut paths, 0, Some(Direction::North), false);
    maze.advance(&mut paths, 0, Some(Direction::East), false);
    assert_eq!(paths, vec![(1, 1)]);
    let before = cells(&maze);
    let next = maze.advance(&mut paths, 0, None, false);
    assert_eq!(next, 1);
    assert_eq!(paths, vec![(0, 1)]);
    let next = maze.advance(&mut paths, 0, None, true);
    assert_eq!(next, 1);
    assert_eq!(paths, vec![(0, 0)]);
    assert_eq!(cells(&maze), before);
}

#[test]
fn advance_retires_a_path_at_the_start_cell() {
    let mut maze = Maze::new(5, 5, 1).unwrap();
    let mut paths = vec![(0, 0), (0, 0), (0, 0)];
    let next = maze.advance(&mut paths, 1, None, false);
    assert_eq!(next, 1);
    assert_eq!(paths, vec![(0, 0), (0, 0)]);
    let next = maze.advance(&mut paths, 1, None, false);
    assert_eq!(next, 1);
    assert_eq!(paths, vec![(0, 0)]);
    let next = maze.advance(&mut paths, 0, None, false);
    assert_eq!(next, 0);
    assert!(paths.is_empty());
    assert_eq!(cells(&maze), cells(&Maze::new(5, 5, 1).unwrap()));
}

#[test]
fn advance_keeps_a_path_that_enters_the_finish_zone() {
    let mut maze = Maze::new(3, 3, 1).unwrap();
    let mut paths = vec![(0, 0)];
    maze.advance(&mut paths, 0, Some(Direction::North), false);
    maze.advance(&mut paths, 0, Some(Direction::North), false);
    maze.advance(&mut paths, 0, Some(Direction::East), false);
    assert_eq!(paths, vec![(1, 2)]);
    let next = maze.advance(&mut paths, 0, Some(Direction::East), false);
    assert_eq!(next, 1);
    assert_eq!(paths, vec![(1, 2)]);
    assert!(maze.goal_reached());
    assert_eq!(maze.finish(), Some((2, 2)));
    assert!(maze.get_cell(2, 2).visited);
    assert!(maze.get_cell(1, 2).has_edge(&Direction::East));
    // The path goes on from its cell: south is the one move left to it.
    assert!(!maze.is_valid(1, 2, &Direction::East));
    assert!(maze.is_valid(1, 2, &Direction::South));
    let next = maze.advance(&mut paths, 0, Some(Direction::South), false);
    assert_eq!(next, 1);
    assert_eq!(paths, vec![(1, 1)]);
    check_tree(&maze);
    check_solution(&maze);
}

#[test]
fn advance_branches_at_the_finish_zone_too() {
    let mut maze = Maze::new(3, 3, 1).unwrap();
    let mut paths = vec![(0, 0)];
    maze.advance(&mut paths, 0, Some(Direction::East), false);
    maze.advance(&mut paths, 0, Some(Direction::East), false);
    maze.advance(&mut paths, 0, Some(Direction::North), false);
    assert_eq!(paths, vec![(2, 1)]);
    let next = maze.advance(&mut paths, 0, Some(Direction::North), true);
    assert_eq!(next, 1);
    assert_eq!(paths, vec![(2, 1), (2, 1)]);
    assert_eq!(maze.finish(), Some((2, 2)));
    check_tree(&maze);
}

#[test]
fn generate_builds_a_tree() {
    let mut rng = rand::thread_rng();
    for (width, height, zone) in [(3, 3, 1), (5, 5, 1), (5, 5, 2), (8, 13, 3), (20, 9, 2), (34, 40, 3)] {
        for _ in 0..5 {
            let mut maze = Maze::new(width, height, zone).unwrap();
            maze.generate(&mut rng);
            check_tree(&maze);
            check_ended(&maze);
            check_solution(&maze);
        }
    }
}

#[test]
fn generate_keeps_the_fixed_part_of_the_maze() {
    let mut rng = rand::thread_rng();
    let fresh = Maze::new(9, 7, 2).unwrap();
    let mut maze = Maze::new(9, 7, 2).unwrap();
    maze.generate(&mut rng);
    assert_eq!((maze.x_size(), maze.y_size(), maze.start_finish_size()), (9, 7, 2));
    assert_eq!(maze.start(), (0, 1));
    for (before, after) in cells(&fresh).iter().zip(cells(&maze).iter()) {
        assert_eq!((before.x, before.y), (after.x, after.y));
        assert_eq!(before.cell_type, after.cell_type);
        assert_eq!(before.start_area, after.start_area);
        assert_eq!(before.finish_area, after.finish_area);
    }
}

#[test]
fn generate_again_loses_nothing() {
    let mut rng = rand::thread_rng();
    let mut maze = Maze::new(12, 12, 2).unwrap();
    maze.generate(&mut rng);
    let first = cells(&maze);
    let goal = maze.goal_reached();
    let finish = maze.finish();
    maze.generate(&mut rng);
    check_tree(&maze);
    let start = maze.start();
    assert!(ALL.iter().all(|d| !maze.is_valid(start.0, start.1, d)));
    for (before, after) in first.iter().zip(cells(&maze).iter()) {
        assert!(!before.visited || after.visited);
        for d in ALL {
            assert!(!before.has_edge(&d) || after.has_edge(&d));
        }
    }
    if goal {
        assert_eq!(maze.finish(), finish);
    }
}

#[test]
fn generate_never_enters_the_start_zone() {
    let mut rng = rand::thread_rng();
    let mut maze = Maze::new(10, 10, 3).unwrap();
    maze.generate(&mut rng);
    for cell in cells(&maze) {
        if cell.start_area {
            assert!(!cell.visited);
            if (cell.x, cell.y) != maze.start() {
                assert_eq!(cell.edges, [false; 4]);
            }
        }
    }
}

#[test]
fn zero_weights_on_the_smallest_grid_still_end() {
    let mut rng = rand::thread_rng();
    for _ in 0..50 {
        let mut maze = Maze::with_strategies(3, 3, 1, zero(), zero()).unwrap();
        maze.generate(&mut rng);
        check_tree(&maze);
        check_ended(&maze);
    }
    for seed in 0..50u64 {
        let mut maze = Maze::with_strategies(3, 3, 1, zero(), zero()).unwrap();
        maze.generate_with(&script(seed, 40, 3));
        check_tree(&maze);
        check_ended(&maze);
    }
}

#[test]
fn zero_weights_on_narrow_grids_still_end() {
    let mut rng = rand::thread_rng();
    for (width, height) in [(3, 9), (9, 3), (3, 4), (4, 3)] {
        let mut maze = Maze::with_strategies(width, height, 1, zero(), zero()).unwrap();
        maze.generate(&mut rng);
        check_tree(&maze);
        check_ended(&maze);
    }
}

#[test]
fn forward_policy_walks_up_and_then_right() {
    let mut maze = Maze::with_strategies(5, 5, 1, forward_only(), forward_only()).unwrap();
    assert_eq!(maze.start(), (0, 0));
    maze.generate_with(&Vec::new());
    assert!(maze.goal_reached());
    assert_eq!(maze.finish(), Some((4, 4)));
    let path = maze.solution_path().unwrap();
    assert_eq!(
        positions(&path),
        vec![(0, 0), (0, 1), (0, 2), (0, 3), (0, 4), (1, 4), (2, 4), (3, 4), (4, 4)]
    );
    for pair in path.windows(2) {
        assert!(pair[0].x <= pair[1].x && pair[0].y <= pair[1].y);
    }
    check_solution(&maze);
    check_tree(&maze);
    // The path went on after the goal until the grid was filled.
    check_ended(&maze);
    assert!(maze.get_cell(1, 0).visited);
    assert!(maze.get_cell(2, 2).visited);
}

#[test]
fn generate_with_follows_the_script() {
    // Weights by axis only, so every candidate weighs 1.
    let strategy = MeanderStrategy::new(1, 1, 0, 0, 0, 0);
    let mut maze = Maze::with_strategies(3, 3, 1, strategy, strategy).unwrap();
    // First round: the path at (0, 0) has the candidates east and north; pick 0 selects east,
    // and the path leaves a second one behind.  That one has north left and takes it.
    // Second round: the first path, at (1, 0), has come eastwards and has the candidates north
    // and east; pick 1 selects east.  The second, at (0, 1), has come northwards and has the
    // candidates east and north; pick 1 selects north.
    // Third round: the first path, at (2, 0), can only go north.  The second, at (0, 2), can
    // only go east.
    // Fourth round: the first path, at (2, 1), has the candidates west and north; pick 1
    // selects north, into the finish zone.
    let draws = vec![
        Draw { pick: 0, branch: true },
        Draw { pick: 0, branch: false },
        Draw { pick: 1, branch: false },
        Draw { pick: 1, branch: false },
        Draw { pick: 0, branch: false },
        Draw { pick: 0, branch: false },
        Draw { pick: 1, branch: false },
    ];
    maze.generate_with(&draws);
    assert_eq!(maze.finish(), Some((2, 2)));
    let path = maze.solution_path().unwrap();
    assert_eq!(positions(&path), vec![(0, 0), (1, 0), (2, 0), (2, 1), (2, 2)]);
    assert!(maze.get_cell(0, 0).has_edge(&Direction::North));
    assert!(maze.get_cell(0, 1).has_edge(&Direction::North));
    assert!(maze.get_cell(0, 2).has_edge(&Direction::East));
    check_tree(&maze);
    // Both paths went on until nothing was left to explore.
    check_ended(&maze);
}

#[test]
fn same_script_same_maze() {
    for seed in 0..20u64 {
        let draws = script(seed, 200, 4);
        let mut first = Maze::new(8, 8, 1).unwrap();
        let mut second = Maze::new(8, 8, 1).unwrap();
        first.generate_with(&draws);
        second.generate_with(&draws);
        assert_eq!(cells(&first), cells(&second));
        assert_eq!(first.goal_reached(), second.goal_reached());
        assert_eq!(first.finish(), second.finish());
        assert_eq!(first.solution_path(), second.solution_path());
        check_tree(&first);
        check_ended(&first);
    }
}

#[test]
fn other_script_other_maze() {
    let mut first = Maze::new(8, 8, 1).unwrap();
    let mut second = Maze::new(8, 8, 1).unwrap();
    first.generate_with(&script(1, 200, 4));
    second.generate_with(&script(2, 200, 4));
    assert_ne!(cells(&first), cells(&second));
}

#[test]
fn generate_with_builds_a_tree() {
    for seed in 0..10u64 {
        for (width, height, zone) in [(3, 3, 1), (6, 5, 2), (15, 11, 3)] {
            let mut maze = Maze::new(width, height, zone).unwrap();
            maze.generate_with(&script(seed, 500, 5));
            check_tree(&maze);
            check_ended(&maze);
            check_solution(&maze);
        }
    }
}

#[test]
fn a_script_that_runs_out_goes_on_with_zero() {
    let mut short = Maze::new(7, 7, 1).unwrap();
    let mut padded = Maze::new(7, 7, 1).unwrap();
    let draws = script(9, 5, 0);
    let mut longer = draws.clone();
    for _ in 0..1000 {
        longer.push(Draw { pick: 0, branch: false });
    }
    short.generate_with(&draws);
    padded.generate_with(&longer);
    assert_eq!(cells(&short), cells(&padded));
}
