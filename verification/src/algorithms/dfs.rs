use rand::rngs::StdRng;
use vstd::prelude::*;
use super::algorithm::Algorithm;
use super::carving::{
    carve_passages, lemma_carved_cells, lemma_carved_has_exit, lemma_carved_walls,
    lemma_walls_stand, walls_between,
};
use super::depth_search::{depth_first_search, FixedOrder};
use super::maze_generation::{
    is_valid_request, lemma_same_topology_connected, place_exit, valid_request, well_generated,
    MazeGenerationAlgorithm,
};
use super::pathfinding::{
    complete_search_result, frames_grow, marked_cells, steps_after, PathfindingAlgorithm,
    PathfindingStats, SnapshotSink,
};
use super::point::Point;
use crate::maze::{Maze, MazeType};
use crate::maze_cell::{CellType, MazeCell};

verus! {

/// Depth-first search and depth-first maze carving. The search tries the
/// neighbours of a cell in a fixed order and tags a cell `FinalPath` as
/// soon as it enters it.
#[derive(Clone, Copy)]
pub struct DFS {
    /// One step for each cell that a search entered.
    pub stats: PathfindingStats,
}

impl Default for DFS {
    fn default() -> (dfs: Self)
        ensures
            dfs.stats.steps == 0,
    {
        DFS { stats: PathfindingStats { steps: 0 } }
    }
}

impl DFS {
    /// A search that has counted no step yet.
    pub fn new() -> (dfs: Self)
        ensures
            dfs.stats.steps == 0,
    {
        DFS { stats: PathfindingStats { steps: 0 } }
    }
}

impl PathfindingAlgorithm for DFS {
    fn find_path(&mut self, maze: &mut Maze, sink: &mut SnapshotSink)
        ensures
            complete_search_result(old(maze)@, final(maze)@),
            marked_cells(final(maze)@).finite(),
            final(self).stats.steps == steps_after(
                old(self).stats.steps,
                marked_cells(final(maze)@).len(),
            ),
    {
        let mut stats = self.stats;
        let mut order = FixedOrder {  };
        depth_first_search(maze, sink, &mut stats, &mut order, true, false);
        self.stats = stats;
    }

    fn get_stats(&self) -> (stats: Option<PathfindingStats>)
        ensures
            stats == Some(self.stats),
    {
        Some(self.stats)
    }

    fn name(&self) -> (algorithm: Algorithm)
        ensures
            algorithm == Algorithm::DFS,
    {
        Algorithm::DFS
    }
}

/// A thick maze of the size asked for, carved depth first from the
/// entrance out of a maze of walls, with the exit on a random cell on an
/// edge of the outer ring that has an open neighbour. Every open cell can be
/// reached from the entrance, and the walls between the corridors stand.
#[verifier::rlimit(40)]
pub(crate) fn carve_thick_maze(
    width: usize,
    height: usize,
    entrance: Point,
    rng: &mut StdRng,
    sink: &mut SnapshotSink,
) -> (maze: Maze)
    requires
        valid_request(width, height, entrance),
    ensures
        maze.wf(),
        maze.width == width,
        maze.height == height,
        maze.maze_type == MazeType::Thick,
        well_generated(maze@, MazeType::Thick, width, height, entrance),
        maze@.connected_from(entrance),
        maze@.on_boundary_edge(maze@.exit()->0),
        forall|p: Point| maze@.in_bounds(p) ==> (#[trigger] maze@.cell(p)).walls == 0,
        walls_between(maze@, entrance),
        final(sink).follows(old(sink)),
        frames_grow(old(sink)@, final(sink)@),
        final(sink)@.len() > old(sink)@.len(),
        final(sink)@.last() == (None::<PathfindingStats>, maze@),
{
    assert(sink@.subrange(0, sink@.len() as int) =~= sink@);
    let ghost frames0 = sink@;
    let mut maze = Maze::new(width, height, MazeType::Thick, Some(CellType::Wall));
    proof {
        maze@.lemma_marked(entrance, CellType::Path);
        assert forall|p: Point| maze@.in_bounds(p) implies #[trigger] maze@.cell(p)
            == MazeCell::new_spec(CellType::Wall) by {
            maze@.lemma_index_in_range(p);
        }
    }
    maze.mark_cell_as_path(entrance);
    sink.record(&maze, Ghost(frames0));
    let carver = carve_passages(&mut maze, entrance, rng, sink, Ghost(frames0));
    let ghost carved = maze@;
    proof {
        lemma_carved_walls(carved, entrance, carver.visited@, carver.mids@);
        lemma_carved_cells(carved, entrance, carver.visited@, carver.mids@);
        assert(carver.stack@ =~= Seq::<Point>::empty());
        lemma_carved_has_exit(carved, entrance, carver.visited@, carver.mids@);
        carved.lemma_marked(entrance, CellType::Entrance);
        carved.lemma_index_in_range(entrance);
        lemma_same_topology_connected(
            carved,
            carved.marked(entrance, CellType::Entrance),
            entrance,
        );
    }
    maze.mark_cell_as_entrance(entrance);
    proof {
        let (p, q) = choose|p: Point, q: Point|
            #![trigger carved.on_boundary_edge(p), carved.cell(q)]
            carved.on_boundary_edge(p) && carved.in_bounds(q) && p.adjacent(q) && carved.cell(
                q,
            ).is_open();
        assert(maze@.in_bounds(q) && p.adjacent(q) && maze@.passable(p, q));
        assert(maze@.exit_candidate(p));
    }
    let ghost tagged = maze@;
    let exit = place_exit(&mut maze, entrance, rng);
    proof {
        assert forall|p: Point| maze@.in_bounds(p) implies (#[trigger] maze@.cell(p)).walls
            == 0 by {
            if p != exit {
                assert(maze@.cell(p) == tagged.cell(p));
                if p != entrance {
                    assert(tagged.cell(p) == carved.cell(p));
                }
            }
        }
    }
    proof {
        lemma_walls_stand(carved, tagged, maze@, entrance, exit);
    }
    sink.record(&maze, Ghost(frames0));
    maze
}

impl MazeGenerationAlgorithm for DFS {
    /// Thick mazes only: the carving tells the cells it has been to by
    /// their being open.
    open spec fn supports(maze_type: MazeType) -> bool {
        maze_type == MazeType::Thick
    }

    /// Starts from a maze of walls, opens the entrance and carves passages
    /// from it, depth first: it jumps two cells at a time, in a random
    /// order of directions, to cells that are still walls, and opens the
    /// cell between. The exit is a random cell on an edge of the outer ring
    /// that has an open neighbour.
    #[verifier::rlimit(40)]
    fn generate(
        &mut self,
        maze_type: MazeType,
        width: usize,
        height: usize,
        entrance: Point,
        rng: &mut StdRng,
        sink: &mut SnapshotSink,
    ) -> (made: Option<Maze>)
        ensures
            made is Some ==> (made->0)@.connected_from(entrance),
            made is Some ==> (made->0)@.on_boundary_edge((made->0)@.exit()->0),
            made is Some ==> forall|p: Point|
                (made->0)@.in_bounds(p) ==> (#[trigger] (made->0)@.cell(p)).walls == 0,
            made is Some ==> walls_between((made->0)@, entrance),
    {
        match maze_type {
            MazeType::Slim => {
                assert(sink@.subrange(0, sink@.len() as int) =~= sink@);
                return None;
            },
            MazeType::Thick => {},
        }
        assert(sink@.subrange(0, sink@.len() as int) =~= sink@);
        if !is_valid_request(width, height, entrance) {
            return None;
        }
        let maze = carve_thick_maze(width, height, entrance, rng, sink);
        Some(maze)
    }
}

} // verus!
