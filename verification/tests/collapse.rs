use maze_lib::algorithms::{Grid, Point, WFC};
use maze_lib::{CellType, Maze, MazeCell, MazeType};

fn maze_from(rows: &[&str]) -> Maze {
    let height = rows.len();
    let width = rows[0].len();
    let mut maze = Maze::new(width, height, MazeType::Thick, Some(CellType::Wall));
    for (y, row) in rows.iter().enumerate() {
        for (x, c) in row.chars().enumerate() {
            let tag = match c {
                '#' => CellType::Wall,
                '.' => CellType::Path,
                'S' => CellType::Entrance,
                'E' => CellType::Exit,
                _ => panic!("unknown cell"),
            };
            maze.set_cell(x, y, MazeCell::new(tag));
        }
    }
    maze
}

fn sample() -> Maze {
    maze_from(&["#######", "#..#..#", "#.S...#", "#..#.##", "#######"])
}

#[test]
fn valid_neighbors_are_those_inside_the_maze() {
    let wfc = WFC::new();
    let maze = sample();
    assert_eq!(
        wfc.get_valid_neighbors(&maze, 2, 2),
        vec![Point { x: 2, y: 3 }, Point { x: 3, y: 2 }, Point { x: 2, y: 1 }, Point { x: 1, y: 2 }]
    );
    assert_eq!(
        wfc.get_valid_neighbors(&maze, 0, 0),
        vec![Point { x: 0, y: 1 }, Point { x: 1, y: 0 }]
    );
    assert_eq!(
        wfc.get_valid_neighbors(&maze, 6, 4),
        vec![Point { x: 6, y: 3 }, Point { x: 5, y: 4 }]
    );
    assert_eq!(
        wfc.get_valid_neighbors(&maze, 3, 0),
        vec![Point { x: 3, y: 1 }, Point { x: 4, y: 0 }, Point { x: 2, y: 0 }]
    );
}

#[test]
fn path_neighbors_are_counted() {
    let wfc = WFC::new();
    let maze = sample();
    // the entrance is no path
    assert_eq!(wfc.count_path_neighbors(&maze, 2, 2), 4);
    assert_eq!(wfc.count_path_neighbors(&maze, 1, 2), 2);
    assert_eq!(wfc.count_path_neighbors(&maze, 3, 1), 3);
    assert_eq!(wfc.count_path_neighbors(&maze, 3, 3), 3);
    assert_eq!(wfc.count_path_neighbors(&maze, 0, 0), 0);
    assert_eq!(wfc.count_path_neighbors(&maze, 1, 0), 1);
    assert_eq!(wfc.count_path_neighbors(&maze, 6, 2), 1);
    assert_eq!(wfc.count_path_neighbors(&maze, 6, 4), 0);
    assert!(wfc.has_path_neighbor(&maze, 1, 0));
    assert!(wfc.has_path_neighbor(&maze, 6, 2));
    assert!(!wfc.has_path_neighbor(&maze, 0, 0));
    assert!(!wfc.has_path_neighbor(&maze, 6, 3));
    assert!(!wfc.has_path_neighbor(&maze, 3, 4));
}

#[test]
fn border_is_the_outer_ring() {
    let wfc = WFC::new();
    let maze = sample();
    for y in 0..5 {
        for x in 0..7 {
            assert_eq!(wfc.is_border(&maze, x, y), x == 0 || y == 0 || x == 6 || y == 4);
        }
    }
}

#[test]
fn entropy_is_zero_two_or_three() {
    let wfc = WFC::new();
    let maze = sample();
    let mut collapsed: Grid<bool> = Grid::new(7, 5, false);
    assert_eq!(wfc.calculate_entropy(Point { x: 2, y: 2 }, &maze, &collapsed), 3);
    assert_eq!(wfc.calculate_entropy(Point { x: 3, y: 1 }, &maze, &collapsed), 3);
    assert_eq!(wfc.calculate_entropy(Point { x: 1, y: 2 }, &maze, &collapsed), 2);
    assert_eq!(wfc.calculate_entropy(Point { x: 0, y: 0 }, &maze, &collapsed), 2);
    collapsed.set(Point { x: 2, y: 2 }, true);
    assert_eq!(wfc.calculate_entropy(Point { x: 2, y: 2 }, &maze, &collapsed), 0);
}

#[test]
fn lowest_entropy_is_the_first_of_the_least() {
    let wfc = WFC::new();
    let maze = sample();
    let mut collapsed: Grid<bool> = Grid::new(7, 5, true);
    assert_eq!(wfc.lowest_entropy(&maze, &collapsed), None);
    collapsed.set(Point { x: 3, y: 1 }, false);
    assert_eq!(wfc.lowest_entropy(&maze, &collapsed), Some(Point { x: 3, y: 1 }));
    collapsed.set(Point { x: 4, y: 3 }, false);
    collapsed.set(Point { x: 5, y: 3 }, false);
    // (3, 1) has three paths around it, the other two have fewer
    assert_eq!(wfc.lowest_entropy(&maze, &collapsed), Some(Point { x: 4, y: 3 }));
    let none: Grid<bool> = Grid::new(7, 5, false);
    assert_eq!(wfc.lowest_entropy(&maze, &none), Some(Point { x: 0, y: 0 }));
}

#[test]
fn shortest_chain_of_moves_is_found() {
    let wfc = WFC::new();
    let mut maze = sample();
    let before = maze.cells.clone();
    let path = wfc.find_path_to_entrance(&mut maze, Point { x: 5, y: 1 }, Point { x: 2,
        y: 2 }).unwrap();
    assert_eq!(path.len(), 5);
    assert_eq!(path[0], Point { x: 5, y: 1 });
    assert_eq!(path[4], Point { x: 2, y: 2 });
    for pair in path.windows(2) {
        assert_eq!(pair[0].x.abs_diff(pair[1].x) + pair[0].y.abs_diff(pair[1].y), 1);
        assert_ne!(maze.get_cell(pair[1]).get_type(), CellType::Wall);
    }
    let same = wfc.find_path_to_entrance(&mut maze, Point { x: 2, y: 2 }, Point { x: 2, y: 2 });
    assert_eq!(same, Some(vec![Point { x: 2, y: 2 }]));
    // a wall can be left but not entered
    let out = wfc.find_path_to_entrance(&mut maze, Point { x: 3, y: 3 }, Point { x: 2, y: 3 });
    assert_eq!(out, Some(vec![Point { x: 3, y: 3 }, Point { x: 2, y: 3 }]));
    assert_eq!(wfc.find_path_to_entrance(&mut maze, Point { x: 2, y: 2 }, Point { x: 3, y: 3 }),
        None);
    assert_eq!(wfc.find_path_to_entrance(&mut maze, Point { x: 1, y: 1 }, Point { x: 6, y: 4 }),
        None);
    // the maze is left as it was
    assert_eq!(maze.cells, before);
}

#[test]
fn exit_is_the_cell_of_the_ring_that_scores_highest() {
    let wfc = WFC::new();
    let maze = sample();
    let start = Point { x: 2, y: 2 };
    // (6, 1) is 17 away squared and has one path: 34. (6, 2) is 16 away with one path: 32.
    assert_eq!(wfc.select_exit(&maze, start), Some((Point { x: 6, y: 1 }, 1)));
    let shut = maze_from(&["#####", "#####", "##S##", "#####", "#####"]);
    assert_eq!(wfc.select_exit(&shut, start), None);
    let two = maze_from(&["#####", "#.###", "#.S.#", "#####", "#####"]);
    // (0, 1): 5 away squared, one path: 10. (0, 2): 4, one path: 8. (4, 2): 4, one path: 8.
    // (1, 0): 5, one path: 10, and it is looked at first.
    assert_eq!(wfc.select_exit(&two, start), Some((Point { x: 1, y: 0 }, 1)));
}

#[test]
fn odds_of_a_path_fall_with_the_paths_around_a_cell() {
    assert_eq!(WFC::path_odds(0), 8);
    assert_eq!(WFC::path_odds(1), 7);
    assert_eq!(WFC::path_odds(2), 4);
    assert_eq!(WFC::path_odds(3), 2);
    assert_eq!(WFC::path_odds(4), 2);
    for n in 0..4 {
        assert!(WFC::path_odds(n + 1) <= WFC::path_odds(n));
        assert!(WFC::path_odds(n) > 0 && WFC::path_odds(n) <= 10);
    }
}
