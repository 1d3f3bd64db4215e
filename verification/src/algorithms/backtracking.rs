use rand::rngs::StdRng;
use vstd::prelude::*;
use super::algorithm::Algorithm;
use super::carving::walls_between;
use super::depth_search::depth_first_search;
use super::dfs::carve_thick_maze;
use super::maze_generation::{is_valid_request, MazeGenerationAlgorithm};
use super::pathfinding::{
    complete_search_result, marked_cells, steps_after, PathfindingAlgorithm, PathfindingStats,
    SnapshotSink,
};
use super::point::Point;
use super::slim_carving::{carve_slim_maze, slim_corridors};
use crate::maze::{Maze, MazeType};
use crate::random::{seeded_generator, seeded_rng, system_rng};

verus! {

/// Randomised depth-first search and randomised maze carving. The search
/// tries the neighbours of each cell in a fresh random order, tags a cell
/// `Visited` when it enters it and `FinalPath` when it moves on from it.
pub struct Backtracking {
    /// One step for each cell that a search entered.
    pub stats: PathfindingStats,
    /// Where the search draws the order of the directions from.
    pub rng: StdRng,
}

impl Default for Backtracking {
    fn default() -> (search: Self)
        ensures
            search.stats.steps == 0,
    {
        Backtracking::new()
    }
}

/// The seed of the generator that a search draws from where the operating
/// system has no entropy to give.
pub const FALLBACK_SEED: u64 = 0;

impl Backtracking {
    /// A search that draws from a generator seeded by the operating system
    /// or, where the system has no entropy to give, from the generator of
    /// [`FALLBACK_SEED`].
    pub fn new() -> (search: Self)
        ensures
            search.stats.steps == 0,
    {
        Backtracking::with_generator(system_rng())
    }

    /// A search that draws from the generator that was drawn, or from the
    /// generator of [`FALLBACK_SEED`] where none could be drawn.
    pub fn with_generator(drawn: Result<StdRng, rand::Error>) -> (search: Self)
        ensures
            search.stats.steps == 0,
            search.rng == match drawn {
                Ok(rng) => rng,
                Err(_) => seeded_generator(FALLBACK_SEED),
            },
    {
        let rng = match drawn {
            Ok(rng) => rng,
            Err(_) => seeded_rng(FALLBACK_SEED),
        };
        Backtracking { stats: PathfindingStats { steps: 0 }, rng }
    }

    /// A search whose random choices are fixed by `seed`.
    pub fn seeded(seed: u64) -> (search: Self)
        ensures
            search.stats.steps == 0,
            search.rng == seeded_generator(seed),
    {
        Backtracking { stats: PathfindingStats { steps: 0 }, rng: seeded_rng(seed) }
    }
}

impl PathfindingAlgorithm for Backtracking {
    fn find_path(&mut self, maze: &mut Maze, sink: &mut SnapshotSink)
        ensures
            complete_search_result(old(maze)@, final(maze)@),
            marked_cells(final(maze)@).finite(),
            final(self).stats.steps == steps_after(
                old(self).stats.steps,
                marked_cells(final(maze)@).len(),
            ),
    {
        let mut stats = self.stats;
        depth_first_search(maze, sink, &mut stats, &mut self.rng, false, true);
        self.stats = stats;
    }

    fn get_stats(&self) -> (stats: Option<PathfindingStats>)
        ensures
            stats == Some(self.stats),
    {
        Some(self.stats)
    }

    fn name(&self) -> (algorithm: Algorithm)
        ensures
            algorithm == Algorithm::Backtracking,
    {
        Algorithm::Backtracking
    }
}

impl MazeGenerationAlgorithm for Backtracking {
    /// Thick and slim mazes alike.
    open spec fn supports(maze_type: MazeType) -> bool {
        true
    }

    /// Carves passages depth first from the entrance, jumping two cells at
    /// a time in a random order of directions to cells that it has not been
    /// to, and sends a snapshot for each jump. With thick walls it starts
    /// from a maze of walls and opens the cell of each jump and the cell
    /// between; with slim walls it starts from a maze in which every edge is
    /// closed and opens the two edges of each jump. The exit is a random
    /// cell on an edge of the outer ring next to a corridor.
    fn generate(
        &mut self,
        maze_type: MazeType,
        width: usize,
        height: usize,
        entrance: Point,
        rng: &mut StdRng,
        sink: &mut SnapshotSink,
    ) -> (made: Option<Maze>)
        ensures
            made is Some ==> (made->0)@.on_boundary_edge((made->0)@.exit()->0),
            made is Some && maze_type == MazeType::Thick ==> {
                &&& (made->0)@.connected_from(entrance)
                &&& walls_between((made->0)@, entrance)
                &&& forall|p: Point|
                    (made->0)@.in_bounds(p) ==> (#[trigger] (made->0)@.cell(p)).walls == 0
            },
            made is Some && maze_type == MazeType::Slim ==> slim_corridors((made->0)@, entrance),
    {
        assert(sink@.subrange(0, sink@.len() as int) =~= sink@);
        if !is_valid_request(width, height, entrance) {
            return None;
        }
        let maze = match maze_type {
            MazeType::Thick => carve_thick_maze(width, height, entrance, rng, sink),
            MazeType::Slim => carve_slim_maze(width, height, entrance, rng, sink),
        };
        Some(maze)
    }
}

} // verus!
