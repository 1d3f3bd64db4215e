use vstd::prelude::*;

verus! {

/// A grid coordinate. `x` counts columns from the left, `y` rows from the top.
#[derive(Clone, Copy, PartialEq, Eq, Hash, Debug, Structural)]
pub struct Point {
    pub x: usize,
    pub y: usize,
}

impl Default for Point {
    /// The first interior cell, just inside the outer ring of a maze.
    fn default() -> (p: Self)
        ensures
            p == (Point { x: 1, y: 1 }),
    {
        Point { x: 1, y: 1 }
    }
}

impl Point {
    /// The Manhattan distance between two points.
    pub open spec fn manhattan(self, other: Point) -> nat {
        let dx: int = if self.x >= other.x { self.x - other.x } else { other.x - self.x };
        let dy: int = if self.y >= other.y { self.y - other.y } else { other.y - self.y };
        (dx + dy) as nat
    }

    /// Whether the two points are one unit step apart along one axis.
    pub open spec fn adjacent(self, other: Point) -> bool {
        self.manhattan(other) == 1
    }

    /// The point reached from `self` by the offset `(dx, dy)`. It is
    /// meaningful where neither coordinate becomes negative.
    pub open spec fn shifted(self, dx: int, dy: int) -> Point {
        Point { x: (self.x + dx) as usize, y: (self.y + dy) as usize }
    }
}

} // verus!
