use vstd::prelude::*;
use super::algorithm::Algorithm;
use super::breadth_search::breadth_first;
use super::pathfinding::{
    lemma_no_route_cells, lemma_route_cells, lemma_shortest_is_complete, marked_cells, route_marked,
    shortest_search_result, PathfindingAlgorithm, PathfindingStats, SnapshotSink,
};
use super::point::Point;
use super::priority_search::{lemma_no_route_bounded, lemma_visits_bounded, visits_bounded};
use super::search::{
    lemma_marked_are_expanded, lemma_route_found, lemma_search_exhausted, lemma_tree_walk,
    tag_route, tree_walk,
};
use crate::maze::Maze;

verus! {

/// Breadth-first search: expands the cells in the order of their distance
/// from the entrance.
pub struct BFS {}

impl Default for BFS {
    fn default() -> Self {
        BFS {  }
    }
}

impl BFS {
    /// A breadth-first search.
    pub fn new() -> Self {
        BFS {  }
    }
}

impl PathfindingAlgorithm for BFS {
    #[verifier::rlimit(40)]
    fn find_path(&mut self, maze: &mut Maze, sink: &mut SnapshotSink)
        ensures
            shortest_search_result(old(maze)@, final(maze)@),
            visits_bounded(old(maze)@, final(maze)@, false),
            marked_cells(final(maze)@).finite(),
            final(maze)@.final_path_cells().finite(),
            final(sink)@.len() == old(sink)@.len() + marked_cells(final(maze)@).len()
                + final(maze)@.final_path_cells().len(),
    {
        let ghost m0 = maze@;
        let entrance = maze.get_entrance().unwrap();
        let exit = maze.get_exit().unwrap();
        proof {
            m0.lemma_index_in_range(entrance);
            m0.lemma_index_in_range(exit);
        }
        let outcome = breadth_first(maze, sink, entrance, exit, true);
        let ghost label = outcome.label@;
        let ghost expanded = outcome.expanded@;
        let came_from = outcome.came_from;
        if outcome.found {
            let ghost path = tree_walk(entrance, label, came_from, exit);
            tag_route(
                maze,
                sink,
                &came_from,
                entrance,
                exit,
                Ghost(m0),
                Ghost(label),
                Ghost(expanded),
                Ghost(old(sink)@),
            );
            proof {
                lemma_tree_walk(m0, entrance, label, came_from, exit);
                lemma_route_found(m0, maze@, entrance, exit, label, came_from, expanded);
                lemma_shortest_is_complete(m0, maze@);
                let shown = choose|shown: Seq<Point>|
                    route_marked(m0, maze@, shown, entrance, exit) && m0.shortest_between(
                        shown,
                        entrance,
                        exit,
                    );
                lemma_route_cells(m0, maze@, shown, entrance, exit);
                assert(shown.len() == path.len());
                assert forall|k: int| 0 <= k < path.len() implies expanded.contains(
                    #[trigger] path[k],
                ) by {
                    if k < path.len() - 1 {
                        assert(came_from.at(path[k + 1]) == Some(path[k]));
                        assert(label.dom().contains(path[k + 1]));
                        assert(path[k + 1] != entrance);
                    } else {
                        assert(path[k] == exit);
                    }
                }
                lemma_marked_are_expanded(m0, maze@, path, expanded);
                lemma_visits_bounded(
                    m0,
                    maze@,
                    entrance,
                    exit,
                    label,
                    came_from,
                    expanded,
                    false,
                    label[exit] as int,
                );
            }
        } else {
            proof {
                if m0.reachable(entrance, exit) {
                    let route = choose|route: Seq<Point>| m0.walk_between(route, entrance, exit);
                    let i = m0.lemma_frontier_on_walk(label, Set::<Point>::empty(), route);
                }
                lemma_no_route_bounded(m0, maze@, false);
                lemma_search_exhausted(m0, maze@, entrance, exit, label, came_from, expanded);
                lemma_shortest_is_complete(m0, maze@);
                lemma_no_route_cells(maze@);
                lemma_marked_are_expanded(m0, maze@, Seq::<Point>::empty(), expanded);
            }
        }
    }

    /// This search keeps no counters.
    fn get_stats(&self) -> (stats: Option<PathfindingStats>)
        ensures
            stats is None,
    {
        None
    }

    fn name(&self) -> (algorithm: Algorithm)
        ensures
            algorithm == Algorithm::BFS,
    {
        Algorithm::BFS
    }
}

} // verus!
