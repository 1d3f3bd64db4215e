use vstd::prelude::*;
use super::algorithm::Algorithm;
use super::pathfinding::{
    lemma_shortest_is_complete, shortest_search_result, PathfindingAlgorithm, PathfindingStats,
    SnapshotSink,
};
use super::priority_search::{priority_search, visits_bounded};
use crate::maze::Maze;

verus! {

/// Dijkstra's search: best-first search ordered by the cost of the route so
/// far alone. Every move costs 1.
pub struct Dijkstra {}

impl Default for Dijkstra {
    fn default() -> Self {
        Dijkstra {  }
    }
}

impl Dijkstra {
    /// A Dijkstra's search.
    pub fn new() -> Self {
        Dijkstra {  }
    }
}

impl PathfindingAlgorithm for Dijkstra {
    fn find_path(&mut self, maze: &mut Maze, sink: &mut SnapshotSink)
        ensures
            shortest_search_result(old(maze)@, final(maze)@),
            visits_bounded(old(maze)@, final(maze)@, false),
    {
        let mut unused = PathfindingStats { steps: 0 };
        priority_search(maze, sink, false, &mut unused, false);
        proof {
            lemma_shortest_is_complete(old(maze)@, maze@);
        }
    }

    /// This search keeps no counters.
    fn get_stats(&self) -> (stats: Option<PathfindingStats>)
        ensures
            stats is None,
    {
        None
    }

    fn name(&self) -> (algorithm: Algorithm)
        ensures
            algorithm == Algorithm::Dijkstra,
    {
        Algorithm::Dijkstra
    }
}

} // verus!
