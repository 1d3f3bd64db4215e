use maze_lib::algorithms::{Movements, Point};
use maze_lib::maze_cell::SlimWallsCellType as WallOps;
use maze_lib::{CellType, Maze, MazeCell, MazeType};
use rand::rngs::StdRng;
use rand::SeedableRng;

fn tags(maze: &Maze) -> Vec<CellType> {
    maze.cells.iter().map(|c| c.get_type()).collect()
}

#[test]
fn new_maze_holds_default_cells() {
    let maze = Maze::new(4, 3, MazeType::Thick, None);
    assert_eq!(maze.width, 4);
    assert_eq!(maze.height, 3);
    assert_eq!(maze.maze_type, MazeType::Thick);
    assert_eq!(maze.cells.len(), 12);
    assert_eq!(maze.original_cells.len(), 12);
    assert!(maze.cells.iter().all(|c| *c == MazeCell { cell_type: CellType::Path, walls: 0 }));
    assert_eq!(maze.cells, maze.original_cells);
    let walls = Maze::new(2, 2, MazeType::Slim, Some(CellType::Wall));
    assert!(walls.cells.iter().all(|c| c.get_type() == CellType::Wall));
    assert_eq!(walls.maze_type, MazeType::Slim);
}

#[test]
fn default_maze_is_empty() {
    let maze = Maze::default();
    assert_eq!(maze.width, 0);
    assert_eq!(maze.height, 0);
    assert_eq!(maze.cells.len(), 0);
    assert_eq!(maze.get_entrance(), None);
    assert_eq!(MazeType::default(), MazeType::Thick);
}

#[test]
fn index_is_row_major() {
    let maze = Maze::new(5, 4, MazeType::Thick, None);
    assert_eq!(maze.get_index(0, 0), 0);
    assert_eq!(maze.get_index(4, 0), 4);
    assert_eq!(maze.get_index(0, 1), 5);
    assert_eq!(maze.get_index(3, 2), 13);
    assert_eq!(maze.get_index(4, 3), 19);
}

#[test]
fn set_cell_changes_one_cell() {
    let mut maze = Maze::new(3, 3, MazeType::Thick, None);
    let wall = MazeCell::new(CellType::Wall);
    maze.set_cell(2, 1, wall);
    assert_eq!(maze.get_cell(Point { x: 2, y: 1 }), wall);
    assert_eq!(maze.cells[5], wall);
    let changed = maze.cells.iter().filter(|c| **c == wall).count();
    assert_eq!(changed, 1);
    assert!(maze.original_cells.iter().all(|c| c.get_type() == CellType::Path));
}

#[test]
fn marks_set_the_tag_and_keep_the_walls() {
    let mut maze = Maze::new(3, 3, MazeType::Slim, None);
    let p = Point { x: 1, y: 2 };
    maze.set_cell(1, 2, MazeCell { cell_type: CellType::Path, walls: 0b0110 });
    maze.mark_cell_as_visited(p);
    assert_eq!(maze.get_cell(p), MazeCell { cell_type: CellType::Visited, walls: 0b0110 });
    maze.mark_cell_as_final_path(p);
    assert_eq!(maze.get_cell(p).get_type(), CellType::FinalPath);
    maze.mark_cell_as_entrance(p);
    assert!(maze.get_cell(p).is_entrance());
    maze.mark_cell_as_exit(p);
    assert!(maze.get_cell(p).is_exit());
    maze.mark_cell_as_path(p);
    assert_eq!(maze.get_cell(p), MazeCell { cell_type: CellType::Path, walls: 0b0110 });
}

#[test]
fn valid_coordinates_are_those_of_the_grid() {
    let maze = Maze::new(4, 3, MazeType::Thick, None);
    assert!(maze.is_valid_coord(0, 0));
    assert!(maze.is_valid_coord(3, 2));
    assert!(maze.is_valid_coord(3, 0));
    assert!(maze.is_valid_coord(0, 2));
    assert!(!maze.is_valid_coord(4, 0));
    assert!(!maze.is_valid_coord(0, 3));
    assert!(!maze.is_valid_coord(-1, 0));
    assert!(!maze.is_valid_coord(0, -1));
    assert!(!maze.is_valid_coord(i32::MAX, i32::MAX));
    assert!(!maze.is_valid_coord(i32::MIN, 1));
}

#[test]
fn thick_passability_looks_at_the_target_only() {
    let mut maze = Maze::new(3, 1, MazeType::Thick, None);
    maze.set_cell(1, 0, MazeCell::new(CellType::Wall));
    let a = Point { x: 0, y: 0 };
    let wall = Point { x: 1, y: 0 };
    let c = Point { x: 2, y: 0 };
    assert!(maze.is_not_passable(a, wall));
    assert!(!maze.is_passable(a, wall));
    assert!(maze.is_passable(wall, a));
    assert!(maze.is_passable(wall, c));
    assert!(maze.is_passable(a, c));
    for tag in [
        CellType::Path,
        CellType::Entrance,
        CellType::Exit,
        CellType::Visited,
        CellType::FinalPath,
    ] {
        maze.mark_cell_as_path(c);
        maze.set_cell(2, 0, MazeCell::new(tag));
        assert!(maze.is_passable(wall, c));
    }
}

#[test]
fn slim_passability_looks_at_the_shared_edge() {
    let mut maze = Maze::new(2, 2, MazeType::Slim, None);
    let a = Point { x: 0, y: 0 };
    let right = Point { x: 1, y: 0 };
    let below = Point { x: 0, y: 1 };
    assert!(maze.is_passable(a, right));
    assert!(maze.is_passable(right, a));
    let mut cell = maze.get_cell(a);
    cell.set_right_wall(true);
    maze.set_cell(0, 0, cell);
    assert!(maze.is_not_passable(a, right));
    assert!(maze.is_not_passable(right, a));
    assert!(maze.is_passable(a, below));
    let mut other = maze.get_cell(below);
    other.set_top_wall(true);
    maze.set_cell(0, 1, other);
    assert!(maze.is_not_passable(a, below));
    assert!(maze.is_not_passable(below, a));
    // walls on the far sides do not matter
    let mut maze = Maze::new(2, 1, MazeType::Slim, None);
    let mut cell = maze.get_cell(a);
    cell.set_left_wall(true);
    cell.set_top_wall(true);
    cell.set_bottom_wall(true);
    maze.set_cell(0, 0, cell);
    assert!(maze.is_passable(a, right));
    // tags do not matter
    maze.set_cell(1, 0, MazeCell::new(CellType::Wall));
    assert!(maze.is_passable(a, right));
}

#[test]
fn removing_walls_opens_the_shared_edge_only() {
    let mut maze = Maze::new(2, 2, MazeType::Slim, None);
    for y in 0..2 {
        for x in 0..2 {
            maze.set_cell(x, y, MazeCell { cell_type: CellType::Path, walls: 0b1111 });
        }
    }
    let a = Point { x: 0, y: 0 };
    let b = Point { x: 1, y: 0 };
    assert!(maze.is_not_passable(a, b));
    maze.remove_walls_between_cells(a, b);
    assert!(maze.is_passable(a, b));
    assert!(maze.is_passable(b, a));
    assert_eq!(maze.get_cell(a).walls, 0b1011);
    assert_eq!(maze.get_cell(b).walls, 0b0111);
    assert_eq!(maze.get_cell(Point { x: 0, y: 1 }).walls, 0b1111);
    assert_eq!(maze.get_cell(Point { x: 1, y: 1 }).walls, 0b1111);
    let c = Point { x: 1, y: 1 };
    maze.remove_walls_between_cells(c, b);
    assert_eq!(maze.get_cell(c).walls, 0b1101);
    assert_eq!(maze.get_cell(b).walls, 0b0110);
    assert!(maze.is_passable(b, c));
}

#[test]
fn backup_and_reset_move_cells_between_state_and_snapshot() {
    let mut maze = Maze::new(3, 3, MazeType::Thick, None);
    maze.mark_cell_as_entrance(Point { x: 1, y: 1 });
    maze.mark_cell_as_exit(Point { x: 2, y: 1 });
    assert_eq!(maze.get_entrance(), None);
    maze.backup();
    assert_eq!(maze.cells, maze.original_cells);
    assert_eq!(maze.get_entrance(), Some(Point { x: 1, y: 1 }));
    assert_eq!(maze.get_exit(), Some(Point { x: 2, y: 1 }));
    let snapshot = maze.original_cells.clone();
    maze.mark_cell_as_visited(Point { x: 0, y: 0 });
    maze.mark_cell_as_final_path(Point { x: 1, y: 1 });
    assert_ne!(maze.cells, snapshot);
    assert_eq!(maze.original_cells, snapshot);
    let fresh = maze.from_original();
    assert_eq!(fresh.cells, snapshot);
    assert_eq!(fresh.original_cells, snapshot);
    assert_eq!(fresh.width, 3);
    assert_eq!(fresh.height, 3);
    maze.reset();
    assert_eq!(maze.cells, snapshot);
    assert_eq!(maze.original_cells, snapshot);
    maze.reset();
    assert_eq!(maze.cells, snapshot);
    let again = maze.from_original().from_original();
    assert_eq!(again.cells, snapshot);
}

#[test]
fn entrance_is_the_first_tagged_cell_in_row_major_order() {
    let mut maze = Maze::new(4, 3, MazeType::Thick, None);
    maze.mark_cell_as_entrance(Point { x: 3, y: 2 });
    maze.mark_cell_as_entrance(Point { x: 0, y: 2 });
    maze.mark_cell_as_entrance(Point { x: 2, y: 1 });
    maze.mark_cell_as_exit(Point { x: 3, y: 0 });
    maze.backup();
    assert_eq!(maze.get_entrance(), Some(Point { x: 2, y: 1 }));
    assert_eq!(maze.get_exit(), Some(Point { x: 3, y: 0 }));
    maze.mark_cell_as_path(Point { x: 2, y: 1 });
    assert_eq!(maze.get_entrance(), Some(Point { x: 2, y: 1 }));
}

#[test]
fn clone_copies_cells_and_snapshot() {
    let mut maze = Maze::new(2, 2, MazeType::Slim, Some(CellType::Wall));
    maze.backup();
    maze.mark_cell_as_path(Point { x: 1, y: 0 });
    let copy = maze.clone();
    assert_eq!(copy.cells, maze.cells);
    assert_eq!(copy.original_cells, maze.original_cells);
    assert_eq!(copy.width, 2);
    assert_eq!(copy.maze_type, MazeType::Slim);
    assert_eq!(tags(&copy)[1], CellType::Path);
}

#[test]
fn neighbor_stays_inside_the_maze() {
    let maze = Maze::new(4, 3, MazeType::Thick, None);
    let corner = Point { x: 0, y: 0 };
    assert_eq!(maze.neighbor(corner, 1, 0), Some(Point { x: 1, y: 0 }));
    assert_eq!(maze.neighbor(corner, 0, 2), Some(Point { x: 0, y: 2 }));
    assert_eq!(maze.neighbor(corner, -1, 0), None);
    assert_eq!(maze.neighbor(corner, 0, -2), None);
    let last = Point { x: 3, y: 2 };
    assert_eq!(maze.neighbor(last, 1, 0), None);
    assert_eq!(maze.neighbor(last, 0, 1), None);
    assert_eq!(maze.neighbor(last, -2, 0), Some(Point { x: 1, y: 2 }));
}

#[test]
fn open_neighbors_follow_the_order_of_the_directions() {
    let mut maze = Maze::new(3, 3, MazeType::Thick, None);
    maze.set_cell(2, 1, MazeCell::new(CellType::Wall));
    let center = Point { x: 1, y: 1 };
    let dirs = Movements::direction_list();
    assert_eq!(
        maze.open_neighbors(center, &dirs),
        vec![Point { x: 1, y: 2 }, Point { x: 1, y: 0 }, Point { x: 0, y: 1 }]
    );
    let reversed = vec![(-1, 0), (0, -1), (1, 0), (0, 1)];
    assert_eq!(
        maze.open_neighbors(center, &reversed),
        vec![Point { x: 0, y: 1 }, Point { x: 1, y: 0 }, Point { x: 1, y: 2 }]
    );
    assert_eq!(
        maze.open_neighbors(Point { x: 0, y: 0 }, &dirs),
        vec![Point { x: 0, y: 1 }, Point { x: 1, y: 0 }]
    );
}

fn walled(width: usize, height: usize) -> Maze {
    Maze::new(width, height, MazeType::Thick, Some(CellType::Wall))
}

#[test]
fn exit_candidates_lie_on_an_edge_and_have_an_open_neighbor() {
    let mut maze = walled(5, 5);
    maze.mark_cell_as_path(Point { x: 1, y: 1 });
    assert!(maze.is_exit_candidate(Point { x: 1, y: 0 }));
    assert!(maze.is_exit_candidate(Point { x: 0, y: 1 }));
    assert!(!maze.is_exit_candidate(Point { x: 2, y: 0 }));
    assert!(!maze.is_exit_candidate(Point { x: 0, y: 0 }));
    assert!(!maze.is_exit_candidate(Point { x: 1, y: 1 }));
    assert!(!maze.is_exit_candidate(Point { x: 1, y: 2 }));
    assert!(!maze.is_exit_candidate(Point { x: 7, y: 0 }));
    maze.mark_cell_as_path(Point { x: 3, y: 4 });
    assert!(maze.is_exit_candidate(Point { x: 2, y: 4 }));
}

#[test]
fn boundary_point_is_one_of_the_two_candidates() {
    let mut maze = walled(7, 7);
    maze.mark_cell_as_path(Point { x: 1, y: 1 });
    let mut rng = StdRng::seed_from_u64(7);
    for _ in 0..50 {
        let point = maze.get_random_boundary_point(&mut rng).unwrap();
        assert!(point == Point { x: 1, y: 0 } || point == Point { x: 0, y: 1 });
        assert!(maze.is_exit_candidate(point));
    }
}

#[test]
fn boundary_point_is_the_only_candidate() {
    let mut maze = walled(7, 7);
    maze.mark_cell_as_path(Point { x: 3, y: 1 });
    let mut rng = StdRng::seed_from_u64(11);
    for _ in 0..50 {
        assert_eq!(maze.get_random_boundary_point(&mut rng), Some(Point { x: 3, y: 0 }));
    }
}

#[test]
fn boundary_point_single_candidate_in_slim_maze() {
    // a slim maze whose cells are all walled in, but for the edge between (1, 0) and (1, 1)
    let mut maze = Maze::new(6, 5, MazeType::Slim, None);
    for y in 0..5 {
        for x in 0..6 {
            maze.set_cell(x, y, MazeCell { cell_type: CellType::Path, walls: 0b1111 });
        }
    }
    maze.remove_walls_between_cells(Point { x: 1, y: 0 }, Point { x: 1, y: 1 });
    let mut rng = StdRng::seed_from_u64(2024);
    for _ in 0..100 {
        assert_eq!(maze.get_random_boundary_point(&mut rng), Some(Point { x: 1, y: 0 }));
    }
    let mut other = StdRng::seed_from_u64(1);
    assert_eq!(maze.get_random_boundary_point(&mut other), Some(Point { x: 1, y: 0 }));
}

#[test]
fn boundary_point_of_a_maze_without_candidates_is_none() {
    let maze = walled(6, 4);
    let mut rng = StdRng::seed_from_u64(3);
    assert_eq!(maze.get_random_boundary_point(&mut rng), None);
    let tiny = Maze::new(2, 2, MazeType::Thick, None);
    assert_eq!(tiny.get_random_boundary_point(&mut rng), None);
    let empty = Maze::default();
    assert_eq!(empty.get_random_boundary_point(&mut rng), None);
}

#[test]
fn boundary_point_never_lacks_an_open_neighbor() {
    let mut maze = walled(9, 7);
    for x in 1..8 {
        maze.mark_cell_as_path(Point { x, y: 3 });
    }
    let mut rng = StdRng::seed_from_u64(99);
    for _ in 0..200 {
        let point = maze.get_random_boundary_point(&mut rng).unwrap();
        assert!(point == Point { x: 0, y: 3 } || point == Point { x: 8, y: 3 });
    }
}

#[test]
fn boundary_points_come_from_all_four_sides() {
    let maze = Maze::new(6, 6, MazeType::Thick, None);
    let mut rng = StdRng::seed_from_u64(5);
    let mut top = 0;
    let mut right = 0;
    let mut bottom = 0;
    let mut left = 0;
    let mut columns = Vec::new();
    for _ in 0..200 {
        let p = maze.get_random_boundary_point(&mut rng).unwrap();
        assert!(maze.is_exit_candidate(p));
        if p.y == 0 {
            top += 1;
            if !columns.contains(&p.x) {
                columns.push(p.x);
            }
        } else if p.x == 5 {
            right += 1;
        } else if p.y == 5 {
            bottom += 1;
        } else {
            assert_eq!(p.x, 0);
            left += 1;
        }
    }
    assert!(top > 0 && right > 0 && bottom > 0 && left > 0);
    columns.sort();
    assert_eq!(columns, vec![1, 2, 3, 4]);
}
