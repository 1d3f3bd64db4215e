//! A maze data model together with grid pathfinding and maze generation
//! algorithms that record their intermediate states for visualisation.
pub mod algorithms;
pub mod animation;
pub mod maze;
pub mod maze_cell;
pub mod random;
pub mod reachability;
pub mod slim_walls_cell;
pub mod theorems;
pub mod thick_walls_cell;

pub use animation::{AnimationState, App};
pub use maze::{Maze, MazeType, MazeView};
pub use maze_cell::{CellType, MazeCell};
pub use slim_walls_cell::{SlimWallsCell, SlimWallsCellType};
pub use thick_walls_cell::{ThickMazeCell, ThickMazeCellType};
