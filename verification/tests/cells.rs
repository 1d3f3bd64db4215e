use maze_lib::maze_cell::{
    SlimWallsCellType as WallOps, BOTTOM_WALL, LEFT_WALL, RIGHT_WALL, TOP_WALL,
};
use maze_lib::{
    CellType, MazeCell, SlimWallsCell, SlimWallsCellType, ThickMazeCell, ThickMazeCellType,
};

#[test]
fn default_tags() {
    assert_eq!(CellType::default(), CellType::Path);
    assert_eq!(ThickMazeCellType::default(), ThickMazeCellType::Wall);
    assert_eq!(SlimWallsCellType::default(), SlimWallsCellType::Path);
    assert_eq!(ThickMazeCell::default(), ThickMazeCell { cell: ThickMazeCellType::Wall });
    assert_eq!(
        SlimWallsCell::default(),
        SlimWallsCell { walls: 0, cell: SlimWallsCellType::Path }
    );
    assert_eq!(MazeCell::default(), MazeCell { cell_type: CellType::Path, walls: 0 });
}

#[test]
fn wall_bits_are_one_bit_each() {
    assert_eq!(LEFT_WALL, 0b1000);
    assert_eq!(RIGHT_WALL, 0b0100);
    assert_eq!(TOP_WALL, 0b0010);
    assert_eq!(BOTTOM_WALL, 0b0001);
}

#[test]
fn new_cell_has_tag_and_no_walls() {
    let cell = MazeCell::new(CellType::Wall);
    assert_eq!(cell.get_type(), CellType::Wall);
    assert_eq!(cell.walls, 0);
    assert!(!cell.is_entrance());
    assert!(!cell.is_exit());
}

#[test]
fn marking_replaces_tag_and_keeps_walls() {
    let mut cell = MazeCell { cell_type: CellType::Path, walls: 0b0101 };
    cell.mark_cell_as(CellType::Entrance);
    assert_eq!(cell, MazeCell { cell_type: CellType::Entrance, walls: 0b0101 });
    assert!(cell.is_entrance());
    cell.mark_cell_as(CellType::Exit);
    assert!(cell.is_exit());
    assert!(!cell.is_entrance());
    assert_eq!(cell.walls, 0b0101);
}

#[test]
fn maze_cell_walls_are_set_and_cleared_one_by_one() {
    let mut cell = MazeCell::new(CellType::Path);
    cell.set_left_wall(true);
    assert_eq!(cell.walls, 0b1000);
    cell.set_right_wall(true);
    assert_eq!(cell.walls, 0b1100);
    cell.set_top_wall(true);
    assert_eq!(cell.walls, 0b1110);
    cell.set_bottom_wall(true);
    assert_eq!(cell.walls, 0b1111);
    assert!(cell.has_left_wall() && cell.has_right_wall());
    assert!(cell.has_top_wall() && cell.has_bottom_wall());
    cell.set_right_wall(false);
    assert_eq!(cell.walls, 0b1011);
    assert!(!cell.has_right_wall());
    assert!(cell.has_left_wall() && cell.has_top_wall() && cell.has_bottom_wall());
    cell.set_left_wall(false);
    cell.set_top_wall(false);
    cell.set_bottom_wall(false);
    assert_eq!(cell.walls, 0);
    assert_eq!(cell.get_type(), CellType::Path);
}

#[test]
fn maze_cell_walls_by_direction() {
    let mut cell = MazeCell::new(CellType::Path);
    cell.set_wall_by_direction((1, 0), true);
    assert_eq!(cell.walls, RIGHT_WALL);
    cell.set_wall_by_direction((0, 1), true);
    assert_eq!(cell.walls, RIGHT_WALL | BOTTOM_WALL);
    cell.set_wall_by_direction((-1, 0), true);
    cell.set_wall_by_direction((0, -1), true);
    assert_eq!(cell.walls, 0b1111);
    cell.set_wall_by_direction((0, -1), false);
    assert!(!cell.has_wall_in_direction((0, -1)));
    assert!(!cell.has_top_wall());
    assert!(cell.has_wall_in_direction((1, 0)));
    assert!(cell.has_wall_in_direction((0, 1)));
    assert!(cell.has_wall_in_direction((-1, 0)));
}

#[test]
fn top_wall_is_not_the_right_wall() {
    let mut cell = MazeCell::new(CellType::Path);
    cell.set_right_wall(true);
    assert!(!cell.has_wall_in_direction((0, -1)));
    let mut slim = SlimWallsCell::new();
    slim.set_right_wall(true);
    assert!(!slim.has_wall_in_direction((0, -1)));
}

#[test]
fn slim_cell_starts_as_path_without_walls() {
    let cell = SlimWallsCell::new();
    assert_eq!(cell.walls, 0);
    assert_eq!(cell.cell, SlimWallsCellType::Path);
    assert!(!cell.has_left_wall());
    assert!(!cell.has_right_wall());
    assert!(!cell.has_top_wall());
    assert!(!cell.has_bottom_wall());
}

#[test]
fn slim_cell_walls_are_set_and_cleared_one_by_one() {
    let mut cell = SlimWallsCell::new();
    cell.set_left_wall(true);
    cell.set_bottom_wall(true);
    assert_eq!(cell.walls, 0b1001);
    assert!(cell.has_left_wall() && cell.has_bottom_wall());
    assert!(!cell.has_right_wall() && !cell.has_top_wall());
    cell.set_top_wall(true);
    cell.set_right_wall(true);
    assert_eq!(cell.walls, 0b1111);
    cell.set_left_wall(false);
    assert_eq!(cell.walls, 0b0111);
    cell.set_bottom_wall(false);
    cell.set_top_wall(false);
    cell.set_right_wall(false);
    assert_eq!(cell.walls, 0);
    assert_eq!(cell.cell, SlimWallsCellType::Path);
}

#[test]
fn slim_cell_walls_by_direction() {
    let mut cell = SlimWallsCell::new();
    cell.set_wall_by_direction((-1, 0), true);
    assert!(cell.has_left_wall());
    assert!(cell.has_wall_in_direction((-1, 0)));
    cell.set_wall_by_direction((0, -1), true);
    assert!(cell.has_top_wall());
    assert!(cell.has_wall_in_direction((0, -1)));
    cell.set_wall_by_direction((0, 1), true);
    assert!(cell.has_bottom_wall());
    cell.set_wall_by_direction((1, 0), true);
    assert!(cell.has_right_wall());
    cell.set_wall_by_direction((-1, 0), false);
    assert_eq!(cell.walls, 0b0111);
}
