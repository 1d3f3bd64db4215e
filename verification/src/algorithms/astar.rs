use vstd::prelude::*;
use super::algorithm::Algorithm;
use super::pathfinding::{
    lemma_shortest_is_complete, shortest_search_result, steps_after, PathfindingAlgorithm,
    PathfindingStats, SnapshotSink,
};
use super::point::Point;
use super::priority_search::{manhattan_distance, priority_search, visits_bounded};
use crate::maze::Maze;

verus! {

/// A* search: best-first search ordered by the cost of the route so far
/// plus the Manhattan distance to the exit. Every move costs 1.
pub struct AStar {
    /// One step for each expansion of a cell.
    pub stats: PathfindingStats,
}

impl Default for AStar {
    fn default() -> (search: Self)
        ensures
            search.stats.steps == 0,
    {
        AStar { stats: PathfindingStats { steps: 0 } }
    }
}

impl AStar {
    /// A search that has counted no step yet.
    pub fn new() -> (search: Self)
        ensures
            search.stats.steps == 0,
    {
        AStar { stats: PathfindingStats { steps: 0 } }
    }

    /// The estimate of the cost from `current` to `goal`: their Manhattan
    /// distance, which no route undercuts.
    pub fn heuristic(&self, current: &Point, goal: &Point) -> (h: usize)
        requires
            current.x <= i32::MAX,
            current.y <= i32::MAX,
            goal.x <= i32::MAX,
            goal.y <= i32::MAX,
        ensures
            h == current.manhattan(*goal),
    {
        manhattan_distance(current, goal)
    }
}

impl PathfindingAlgorithm for AStar {
    fn find_path(&mut self, maze: &mut Maze, sink: &mut SnapshotSink)
        ensures
            shortest_search_result(old(maze)@, final(maze)@),
            visits_bounded(old(maze)@, final(maze)@, true),
            final(maze)@.final_path_cells().finite(),
            final(sink)@.len() >= old(sink)@.len() + final(maze)@.final_path_cells().len(),
            final(self).stats.steps == steps_after(
                old(self).stats.steps,
                (final(sink)@.len() - old(sink)@.len()
                    - final(maze)@.final_path_cells().len()) as nat,
            ),
    {
        let mut stats = self.stats;
        priority_search(maze, sink, true, &mut stats, true);
        self.stats = stats;
        proof {
            lemma_shortest_is_complete(old(maze)@, maze@);
        }
    }

    fn get_stats(&self) -> (stats: Option<PathfindingStats>)
        ensures
            stats == Some(self.stats),
    {
        Some(self.stats)
    }

    fn name(&self) -> (algorithm: Algorithm)
        ensures
            algorithm == Algorithm::AStar,
    {
        Algorithm::AStar
    }
}

} // verus!
