use vstd::prelude::*;
use crate::algorithms::directions::is_cardinal;
use crate::maze_cell::{
    has_wall, wall_mask, with_wall, BOTTOM_WALL, LEFT_WALL, RIGHT_WALL, TOP_WALL,
};

verus! {

/// The status tag of a cell in a maze with slim walls, where every cell can
/// be stepped on.
#[derive(Clone, Copy, PartialEq, Eq, Debug, Structural)]
pub enum SlimWallsCellType {
    Path,
    Entrance,
    Exit,
    Visited,
    FinalPath,
}

impl Default for SlimWallsCellType {
    fn default() -> (t: Self)
        ensures
            t == SlimWallsCellType::Path,
    {
        SlimWallsCellType::Path
    }
}

/// A cell of a maze with slim walls: a tag and the mask of the walls on its
/// four edges.
#[derive(Clone, Copy, PartialEq, Eq, Debug, Structural)]
pub struct SlimWallsCell {
    pub walls: u8,
    pub cell: SlimWallsCellType,
}

impl Default for SlimWallsCell {
    fn default() -> (c: Self)
        ensures
            c == (SlimWallsCell { walls: 0, cell: SlimWallsCellType::Path }),
    {
        SlimWallsCell { walls: 0, cell: SlimWallsCellType::Path }
    }
}

impl SlimWallsCell {
    /// A path cell without walls.
    pub fn new() -> (c: SlimWallsCell)
        ensures
            c == (SlimWallsCell { walls: 0, cell: SlimWallsCellType::Path }),
    {
        SlimWallsCell { walls: 0, cell: SlimWallsCellType::Path }
    }

    /// The cell with `bits` as its wall mask and the same tag.
    pub open spec fn with_wall_bits(self, bits: u8) -> SlimWallsCell {
        SlimWallsCell { walls: bits, cell: self.cell }
    }

    /// Whether there is a wall on the left edge.
    pub fn has_left_wall(&self) -> (b: bool)
        ensures
            b == has_wall(self.walls, LEFT_WALL),
    {
        self.walls & LEFT_WALL != 0
    }

    /// Sets or clears the wall on the left edge.
    pub fn set_left_wall(&mut self, has_wall: bool)
        ensures
            *final(self) == old(self).with_wall_bits(
                with_wall(old(self).walls, LEFT_WALL, has_wall),
            ),
    {
        if has_wall {
            self.walls = self.walls | LEFT_WALL;
        } else {
            self.walls = self.walls & !LEFT_WALL;
        }
    }

    /// Whether there is a wall on the right edge.
    pub fn has_right_wall(&self) -> (b: bool)
        ensures
            b == has_wall(self.walls, RIGHT_WALL),
    {
        self.walls & RIGHT_WALL != 0
    }

    /// Sets or clears the wall on the right edge.
    pub fn set_right_wall(&mut self, has_wall: bool)
        ensures
            *final(self) == old(self).with_wall_bits(
                with_wall(old(self).walls, RIGHT_WALL, has_wall),
            ),
    {
        if has_wall {
            self.walls = self.walls | RIGHT_WALL;
        } else {
            self.walls = self.walls & !RIGHT_WALL;
        }
    }

    /// Whether there is a wall on the top edge.
    pub fn has_top_wall(&self) -> (b: bool)
        ensures
            b == has_wall(self.walls, TOP_WALL),
    {
        self.walls & TOP_WALL != 0
    }

    /// Sets or clears the wall on the top edge.
    pub fn set_top_wall(&mut self, has_wall: bool)
        ensures
            *final(self) == old(self).with_wall_bits(
                with_wall(old(self).walls, TOP_WALL, has_wall),
            ),
    {
        if has_wall {
            self.walls = self.walls | TOP_WALL;
        } else {
            self.walls = self.walls & !TOP_WALL;
        }
    }

    /// Whether there is a wall on the bottom edge.
    pub fn has_bottom_wall(&self) -> (b: bool)
        ensures
            b == has_wall(self.walls, BOTTOM_WALL),
    {
        self.walls & BOTTOM_WALL != 0
    }

    /// Sets or clears the wall on the bottom edge.
    pub fn set_bottom_wall(&mut self, has_wall: bool)
        ensures
            *final(self) == old(self).with_wall_bits(
                with_wall(old(self).walls, BOTTOM_WALL, has_wall),
            ),
    {
        if has_wall {
            self.walls = self.walls | BOTTOM_WALL;
        } else {
            self.walls = self.walls & !BOTTOM_WALL;
        }
    }

    /// Sets or clears the wall on the edge that `direction` crosses.
    pub fn set_wall_by_direction(&mut self, direction: (i32, i32), has_wall: bool)
        requires
            is_cardinal(direction.0 as int, direction.1 as int),
        ensures
            *final(self) == old(self).with_wall_bits(
                with_wall(
                    old(self).walls,
                    wall_mask(direction.0 as int, direction.1 as int),
                    has_wall,
                ),
            ),
    {
        if direction.0 == 1 && direction.1 == 0 {
            self.set_right_wall(has_wall);
        } else if direction.0 == 0 && direction.1 == 1 {
            self.set_bottom_wall(has_wall);
        } else if direction.0 == -1 && direction.1 == 0 {
            self.set_left_wall(has_wall);
        } else {
            self.set_top_wall(has_wall);
        }
    }

    /// Whether there is a wall on the edge that `direction` crosses.
    pub fn has_wall_in_direction(&self, direction: (i32, i32)) -> (b: bool)
        requires
            is_cardinal(direction.0 as int, direction.1 as int),
        ensures
            b == has_wall(self.walls, wall_mask(direction.0 as int, direction.1 as int)),
    {
        if direction.0 == 1 && direction.1 == 0 {
            self.has_right_wall()
        } else if direction.0 == 0 && direction.1 == 1 {
            self.has_bottom_wall()
        } else if direction.0 == -1 && direction.1 == 0 {
            self.has_left_wall()
        } else {
            self.has_top_wall()
        }
    }
}

} // verus!
