use vstd::prelude::*;
use crate::algorithms::directions::is_cardinal;

verus! {

/// The status tag of a cell.
#[derive(Clone, Copy, PartialEq, Eq, Debug, Structural)]
pub enum CellType {
    Wall,
    Path,
    Entrance,
    Exit,
    Visited,
    FinalPath,
}

impl Default for CellType {
    fn default() -> (t: Self)
        ensures
            t == CellType::Path,
    {
        CellType::Path
    }
}

/// Wall bit of the edge towards the cell on the left (`x - 1`).
pub const LEFT_WALL: u8 = 0b1000;

/// Wall bit of the edge towards the cell on the right (`x + 1`).
pub const RIGHT_WALL: u8 = 0b0100;

/// Wall bit of the edge towards the cell above (`y - 1`).
pub const TOP_WALL: u8 = 0b0010;

/// Wall bit of the edge towards the cell below (`y + 1`).
pub const BOTTOM_WALL: u8 = 0b0001;

/// Whether the bit `mask` is set in the wall mask `walls`.
pub open spec fn has_wall(walls: u8, mask: u8) -> bool {
    walls & mask != 0
}

/// The wall mask `walls` with the bit `mask` set or cleared.
pub open spec fn with_wall(walls: u8, mask: u8, on: bool) -> u8 {
    if on {
        walls | mask
    } else {
        walls & !mask
    }
}

/// The wall bit of the edge that the unit offset `(dx, dy)` crosses.
pub open spec fn wall_mask(dx: int, dy: int) -> u8 {
    if dx == 1 && dy == 0 {
        RIGHT_WALL
    } else if dx == 0 && dy == 1 {
        BOTTOM_WALL
    } else if dx == -1 && dy == 0 {
        LEFT_WALL
    } else {
        TOP_WALL
    }
}

/// Whether `mask` is one of the four wall bits.
pub open spec fn is_wall_bit(mask: u8) -> bool {
    mask == LEFT_WALL || mask == RIGHT_WALL || mask == TOP_WALL || mask == BOTTOM_WALL
}

/// One cell of a maze: a status tag and, for mazes with slim walls, the mask
/// of the walls on its four edges.
#[derive(Clone, Copy, PartialEq, Eq, Debug, Structural)]
pub struct MazeCell {
    pub cell_type: CellType,
    pub walls: u8,
}

impl Default for MazeCell {
    fn default() -> (cell: Self)
        ensures
            cell == (MazeCell { cell_type: CellType::Path, walls: 0 }),
    {
        MazeCell { cell_type: CellType::Path, walls: 0 }
    }
}

impl MazeCell {
    /// The cell with the given tag and no walls on its edges.
    pub open spec fn new_spec(cell_type: CellType) -> MazeCell {
        MazeCell { cell_type, walls: 0 }
    }

    /// A cell with the given tag and no walls on its edges.
    #[verifier::when_used_as_spec(new_spec)]
    pub fn new(cell_type: CellType) -> (cell: Self)
        ensures
            cell == Self::new_spec(cell_type),
    {
        MazeCell { cell_type, walls: 0 }
    }

    /// Replaces the tag and keeps the walls.
    pub fn mark_cell_as(&mut self, cell_type: CellType)
        ensures
            *final(self) == (MazeCell { cell_type, walls: old(self).walls }),
    {
        self.cell_type = cell_type;
    }

    /// The tag of the cell.
    pub fn get_type(&self) -> (t: CellType)
        ensures
            t == self.cell_type,
    {
        self.cell_type
    }

    /// Whether the cell is tagged `Entrance`.
    pub fn is_entrance(&self) -> (b: bool)
        ensures
            b == (self.cell_type == CellType::Entrance),
    {
        self.cell_type == CellType::Entrance
    }

    /// Whether the cell is tagged `Exit`.
    pub fn is_exit(&self) -> (b: bool)
        ensures
            b == (self.cell_type == CellType::Exit),
    {
        self.cell_type == CellType::Exit
    }

    /// Whether the cell can be stepped on in a maze with thick walls.
    pub open spec fn is_open(self) -> bool {
        self.cell_type != CellType::Wall
    }

    /// Whether the tag is one that a search leaves behind.
    pub open spec fn is_search_mark(self) -> bool {
        self.cell_type == CellType::Visited || self.cell_type == CellType::FinalPath
    }
}

/// The wall operations of a cell with slim walls.
pub trait SlimWallsCellType: Sized {
    /// The wall mask of the cell.
    spec fn wall_bits(&self) -> u8;

    /// The cell with `bits` as its wall mask and everything else unchanged.
    spec fn with_wall_bits(&self, bits: u8) -> Self;

    fn has_left_wall(&self) -> (b: bool)
        ensures
            b == has_wall(self.wall_bits(), LEFT_WALL),
    ;

    fn set_left_wall(&mut self, has_wall: bool)
        ensures
            *final(self) == old(self).with_wall_bits(
                with_wall(old(self).wall_bits(), LEFT_WALL, has_wall),
            ),
    ;

    fn has_right_wall(&self) -> (b: bool)
        ensures
            b == has_wall(self.wall_bits(), RIGHT_WALL),
    ;

    fn set_right_wall(&mut self, has_wall: bool)
        ensures
            *final(self) == old(self).with_wall_bits(
                with_wall(old(self).wall_bits(), RIGHT_WALL, has_wall),
            ),
    ;

    fn has_top_wall(&self) -> (b: bool)
        ensures
            b == has_wall(self.wall_bits(), TOP_WALL),
    ;

    fn set_top_wall(&mut self, has_wall: bool)
        ensures
            *final(self) == old(self).with_wall_bits(
                with_wall(old(self).wall_bits(), TOP_WALL, has_wall),
            ),
    ;

    fn has_bottom_wall(&self) -> (b: bool)
        ensures
            b == has_wall(self.wall_bits(), BOTTOM_WALL),
    ;

    fn set_bottom_wall(&mut self, has_wall: bool)
        ensures
            *final(self) == old(self).with_wall_bits(
                with_wall(old(self).wall_bits(), BOTTOM_WALL, has_wall),
            ),
    ;

    /// Sets or clears the wall on the edge that `direction` crosses.
    fn set_wall_by_direction(&mut self, direction: (i32, i32), has_wall: bool)
        requires
            is_cardinal(direction.0 as int, direction.1 as int),
        ensures
            *final(self) == old(self).with_wall_bits(
                with_wall(
                    old(self).wall_bits(),
                    wall_mask(direction.0 as int, direction.1 as int),
                    has_wall,
                ),
            ),
    ;

    /// Whether there is a wall on the edge that `direction` crosses.
    fn has_wall_in_direction(&self, direction: (i32, i32)) -> (b: bool)
        requires
            is_cardinal(direction.0 as int, direction.1 as int),
        ensures
            b == has_wall(self.wall_bits(), wall_mask(direction.0 as int, direction.1 as int)),
    ;
}

impl SlimWallsCellType for MazeCell {
    open spec fn wall_bits(&self) -> u8 {
        self.walls
    }

    open spec fn with_wall_bits(&self, bits: u8) -> Self {
        MazeCell { cell_type: self.cell_type, walls: bits }
    }

    fn has_left_wall(&self) -> (b: bool) {
        self.walls & LEFT_WALL != 0
    }

    fn set_left_wall(&mut self, has_wall: bool) {
        if has_wall {
            self.walls = self.walls | LEFT_WALL;
        } else {
            self.walls = self.walls & !LEFT_WALL;
        }
    }

    fn has_right_wall(&self) -> (b: bool) {
        self.walls & RIGHT_WALL != 0
    }

    fn set_right_wall(&mut self, has_wall: bool) {
        if has_wall {
            self.walls = self.walls | RIGHT_WALL;
        } else {
            self.walls = self.walls & !RIGHT_WALL;
        }
    }

    fn has_top_wall(&self) -> (b: bool) {
        self.walls & TOP_WALL != 0
    }

    fn set_top_wall(&mut self, has_wall: bool) {
        if has_wall {
            self.walls = self.walls | TOP_WALL;
        } else {
            self.walls = self.walls & !TOP_WALL;
        }
    }

    fn has_bottom_wall(&self) -> (b: bool) {
        self.walls & BOTTOM_WALL != 0
    }

    fn set_bottom_wall(&mut self, has_wall: bool) {
        if has_wall {
            self.walls = self.walls | BOTTOM_WALL;
        } else {
            self.walls = self.walls & !BOTTOM_WALL;
        }
    }

    fn set_wall_by_direction(&mut self, direction: (i32, i32), has_wall: bool) {
        if direction.0 == 1 && direction.1 == 0 {
            self.set_right_wall(has_wall);
        } else if direction.0 == 0 && direction.1 == 1 {
            self.set_bottom_wall(has_wall);
        } else if direction.0 == -1 && direction.1 == 0 {
            self.set_left_wall(has_wall);
        } else {
            self.set_top_wall(has_wall);
        }
    }

    fn has_wall_in_direction(&self, direction: (i32, i32)) -> (b: bool) {
        if direction.0 == 1 && direction.1 == 0 {
            self.has_right_wall()
        } else if direction.0 == 0 && direction.1 == 1 {
            self.has_bottom_wall()
        } else if direction.0 == -1 && direction.1 == 0 {
            self.has_left_wall()
        } else {
            self.has_top_wall()
        }
    }
}

} // verus!
