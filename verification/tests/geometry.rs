use maze_lib::algorithms::{Grid, Movements, Point};

#[test]
fn point_default_is_first_interior_cell() {
    assert_eq!(Point::default(), Point { x: 1, y: 1 });
}

#[test]
fn directions_are_down_right_up_left() {
    assert_eq!(Movements::directions(), [(0, 1), (1, 0), (0, -1), (-1, 0)]);
    assert_eq!(Movements::direction_list(), vec![(0, 1), (1, 0), (0, -1), (-1, 0)]);
}

#[test]
fn doubled_directions_are_twice_the_unit_offsets() {
    assert_eq!(Movements::directions_doubled(), [(0, 2), (2, 0), (0, -2), (-2, 0)]);
    assert_eq!(Movements::doubled_direction_list(), vec![(0, 2), (2, 0), (0, -2), (-2, 0)]);
}

#[test]
fn calculate_direction_points_from_neighbor_to_current() {
    let current = Point { x: 3, y: 4 };
    assert_eq!(Movements::calculate_direction(current, Point { x: 4, y: 4 }), (-1, 0));
    assert_eq!(Movements::calculate_direction(current, Point { x: 2, y: 4 }), (1, 0));
    assert_eq!(Movements::calculate_direction(current, Point { x: 3, y: 5 }), (0, -1));
    assert_eq!(Movements::calculate_direction(current, Point { x: 3, y: 3 }), (0, 1));
    assert_eq!(Movements::calculate_direction(current, Point { x: 5, y: 1 }), (-2, 3));
}

#[test]
fn opposite_direction_negates_both_offsets() {
    assert_eq!(Movements::get_opposite_direction(0, 1), (0, -1));
    assert_eq!(Movements::get_opposite_direction(1, 0), (-1, 0));
    assert_eq!(Movements::get_opposite_direction(0, -1), (0, 1));
    assert_eq!(Movements::get_opposite_direction(-1, 0), (1, 0));
}

#[test]
fn opposite_of_opposite_is_the_direction() {
    for (dx, dy) in Movements::directions() {
        let (ox, oy) = Movements::get_opposite_direction(dx, dy);
        assert_eq!(Movements::get_opposite_direction(ox, oy), (dx, dy));
    }
}

#[test]
fn grid_holds_one_value_per_cell() {
    let mut grid: Grid<usize> = Grid::new(3, 2, 7);
    assert_eq!(grid.cells.len(), 6);
    assert_eq!(grid.get(Point { x: 2, y: 1 }), 7);
    grid.set(Point { x: 2, y: 1 }, 9);
    assert_eq!(grid.get(Point { x: 2, y: 1 }), 9);
    assert_eq!(grid.get(Point { x: 1, y: 1 }), 7);
    assert_eq!(grid.get(Point { x: 2, y: 0 }), 7);
    assert_eq!(grid.cells[5], 9);
}

#[test]
fn grid_of_no_cells_is_empty() {
    let grid: Grid<bool> = Grid::new(0, 5, false);
    assert_eq!(grid.cells.len(), 0);
}
