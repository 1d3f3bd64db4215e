//! Geometry, the search and generation algorithms, and the snapshot protocol.
pub mod algorithm;
pub mod astar;
pub mod backtracking;
pub mod bellman_ford;
pub mod bfs;
pub mod breadth_search;
pub mod carving;
pub mod depth_search;
pub mod dfs;
pub mod dijkstra;
pub mod directions;
pub mod grid;
pub mod maze_generation;
pub mod pathfinding;
pub mod point;
pub mod priority_search;
pub mod search;
pub mod slim_carving;
pub mod wfc;

pub use algorithm::{Algorithm, MazeGenerator, Pathfinder};
pub use astar::AStar;
pub use backtracking::Backtracking;
pub use bellman_ford::BellmanFord;
pub use bfs::BFS;
pub use dfs::DFS;
pub use dijkstra::Dijkstra;
pub use directions::Movements;
pub use grid::Grid;
pub use maze_generation::MazeGenerationAlgorithm;
pub use pathfinding::{
    PathfindingAlgorithm, PathfindingAnimationState, PathfindingResult, PathfindingState,
    PathfindingStats, SnapshotSink,
};
pub use point::Point;
pub use wfc::WFC;
