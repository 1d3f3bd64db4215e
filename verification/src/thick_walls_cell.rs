use vstd::prelude::*;

verus! {

/// The status tag of a cell in a maze whose walls fill whole cells.
#[derive(Clone, Copy, PartialEq, Eq, Debug, Structural)]
pub enum ThickMazeCellType {
    Wall,
    Path,
    Entrance,
    Exit,
    Visited,
    FinalPath,
}

impl Default for ThickMazeCellType {
    fn default() -> (t: Self)
        ensures
            t == ThickMazeCellType::Wall,
    {
        ThickMazeCellType::Wall
    }
}

/// A cell of a maze whose walls fill whole cells.
#[derive(Clone, Copy, PartialEq, Eq, Debug, Structural)]
pub struct ThickMazeCell {
    pub cell: ThickMazeCellType,
}

impl Default for ThickMazeCell {
    fn default() -> (c: Self)
        ensures
            c == (ThickMazeCell { cell: ThickMazeCellType::Wall }),
    {
        ThickMazeCell { cell: ThickMazeCellType::Wall }
    }
}

} // verus!
