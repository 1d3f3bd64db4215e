use rand::rngs::StdRng;
use vstd::prelude::*;
use super::astar::AStar;
use super::backtracking::Backtracking;
use super::bellman_ford::BellmanFord;
use super::bfs::BFS;
use super::dfs::DFS;
use super::dijkstra::Dijkstra;
use super::maze_generation::{valid_request, well_generated, MazeGenerationAlgorithm};
use super::pathfinding::{
    complete_search_result, frames_grow, searchable, PathfindingAlgorithm, PathfindingStats,
    SnapshotSink,
};
use super::point::Point;
use super::wfc::WFC;
use crate::maze::{Maze, MazeType};

verus! {

/// The algorithms of the library. One enumeration names both the searches
/// and the generators.
#[derive(Debug, Clone, Copy, PartialEq, Eq, Structural)]
pub enum Algorithm {
    AStar,
    Backtracking,
    BellmanFord,
    BFS,
    DFS,
    Dijkstra,
    WFC,
}

impl Default for Algorithm {
    fn default() -> (a: Self)
        ensures
            a == Algorithm::Backtracking,
    {
        Algorithm::Backtracking
    }
}

/// Every algorithm, in declaration order.
pub open spec fn all_algorithms() -> Seq<Algorithm> {
    seq![
        Algorithm::AStar,
        Algorithm::Backtracking,
        Algorithm::BellmanFord,
        Algorithm::BFS,
        Algorithm::DFS,
        Algorithm::Dijkstra,
        Algorithm::WFC,
    ]
}

impl Algorithm {
    /// Whether the algorithm searches a path through a given maze.
    pub open spec fn searches(self) -> bool {
        self != Algorithm::WFC
    }

    /// Whether the algorithm can generate a maze of the given kind.
    pub open spec fn generates(self, maze_type: MazeType) -> bool {
        match maze_type {
            MazeType::Thick => self == Algorithm::DFS || self == Algorithm::Backtracking || self
                == Algorithm::WFC,
            MazeType::Slim => self == Algorithm::Backtracking,
        }
    }

    /// The position of the algorithm in declaration order.
    pub open spec fn ordinal(self) -> int {
        match self {
            Algorithm::AStar => 0,
            Algorithm::Backtracking => 1,
            Algorithm::BellmanFord => 2,
            Algorithm::BFS => 3,
            Algorithm::DFS => 4,
            Algorithm::Dijkstra => 5,
            Algorithm::WFC => 6,
        }
    }

    /// Every algorithm, in declaration order.
    pub fn all() -> (list: Vec<Algorithm>)
        ensures
            list@ == all_algorithms(),
    {
        let list = vec![
            Algorithm::AStar,
            Algorithm::Backtracking,
            Algorithm::BellmanFord,
            Algorithm::BFS,
            Algorithm::DFS,
            Algorithm::Dijkstra,
            Algorithm::WFC,
        ];
        assert(list@ =~= all_algorithms());
        list
    }

    /// The generators that are offered for mazes of the given kind.
    pub fn maze_generation_algorithms(maze_type: MazeType) -> (list: Vec<Algorithm>)
        ensures
            list@ == match maze_type {
                MazeType::Thick => seq![Algorithm::DFS, Algorithm::Backtracking, Algorithm::WFC],
                MazeType::Slim => seq![Algorithm::Backtracking],
            },
            forall|a: Algorithm| list@.contains(a) <==> a.generates(maze_type),
    {
        match maze_type {
            MazeType::Thick => {
                let list = vec![Algorithm::DFS, Algorithm::Backtracking, Algorithm::WFC];
                assert(list@ =~= seq![Algorithm::DFS, Algorithm::Backtracking, Algorithm::WFC]);
                assert(list@[0] == Algorithm::DFS && list@[1] == Algorithm::Backtracking && list@[2]
                    == Algorithm::WFC);
                list
            },
            MazeType::Slim => {
                let list = vec![Algorithm::Backtracking];
                assert(list@ =~= seq![Algorithm::Backtracking]);
                assert(list@[0] == Algorithm::Backtracking);
                list
            },
        }
    }

    /// The searches, in declaration order.
    pub fn pathfinding_algorithms() -> (list: Vec<Algorithm>)
        ensures
            list@ == seq![
                Algorithm::AStar,
                Algorithm::Backtracking,
                Algorithm::BellmanFord,
                Algorithm::BFS,
                Algorithm::DFS,
                Algorithm::Dijkstra,
            ],
            forall|a: Algorithm| list@.contains(a) <==> a.searches(),
    {
        let list = vec![
            Algorithm::AStar,
            Algorithm::Backtracking,
            Algorithm::BellmanFord,
            Algorithm::BFS,
            Algorithm::DFS,
            Algorithm::Dijkstra,
        ];
        assert(list@ =~= seq![
            Algorithm::AStar,
            Algorithm::Backtracking,
            Algorithm::BellmanFord,
            Algorithm::BFS,
            Algorithm::DFS,
            Algorithm::Dijkstra,
        ]);
        assert(list@[0] == Algorithm::AStar && list@[1] == Algorithm::Backtracking && list@[2]
            == Algorithm::BellmanFord && list@[3] == Algorithm::BFS && list@[4] == Algorithm::DFS
            && list@[5] == Algorithm::Dijkstra);
        list
    }

    /// Whether the algorithm searches a path through a given maze.
    pub fn is_pathfinding_algorithm(&self) -> (b: bool)
        ensures
            b == self.searches(),
    {
        match self {
            Algorithm::WFC => false,
            _ => true,
        }
    }

    /// The algorithm that comes after this one, and the first after the
    /// last.
    pub fn next_cycle(&self) -> (next: Algorithm)
        ensures
            next.ordinal() == (self.ordinal() + 1) % 7,
    {
        match self {
            Algorithm::AStar => Algorithm::Backtracking,
            Algorithm::Backtracking => Algorithm::BellmanFord,
            Algorithm::BellmanFord => Algorithm::BFS,
            Algorithm::BFS => Algorithm::DFS,
            Algorithm::DFS => Algorithm::Dijkstra,
            Algorithm::Dijkstra => Algorithm::WFC,
            Algorithm::WFC => Algorithm::AStar,
        }
    }

    /// The algorithm that comes before this one, and the last before the
    /// first.
    pub fn previous_cycle(&self) -> (previous: Algorithm)
        ensures
            previous.ordinal() == (self.ordinal() + 6) % 7,
    {
        match self {
            Algorithm::AStar => Algorithm::WFC,
            Algorithm::Backtracking => Algorithm::AStar,
            Algorithm::BellmanFord => Algorithm::Backtracking,
            Algorithm::BFS => Algorithm::BellmanFord,
            Algorithm::DFS => Algorithm::BFS,
            Algorithm::Dijkstra => Algorithm::DFS,
            Algorithm::WFC => Algorithm::Dijkstra,
        }
    }

    /// A generator for the algorithm, where it is one.
    pub fn get_maze_generator(&self) -> (generator: Option<MazeGenerator>)
        ensures
            generator is Some <==> self.generates(MazeType::Thick),
            generator is Some ==> (generator->0).algorithm() == *self,
    {
        match self {
            Algorithm::DFS => Some(MazeGenerator::DFS(DFS::new())),
            Algorithm::Backtracking => Some(MazeGenerator::Backtracking(Backtracking::new())),
            Algorithm::WFC => Some(MazeGenerator::WFC(WFC::new())),
            _ => None,
        }
    }

    /// A search for the algorithm, where it is one.
    pub fn get_pathfinder(&self) -> (search: Option<Pathfinder>)
        ensures
            search is Some <==> self.searches(),
            search is Some ==> (search->0).algorithm() == *self,
            search is Some ==> (search->0).stats() is None || (search->0).stats()
                == Some(PathfindingStats { steps: 0 }),
    {
        match self {
            Algorithm::AStar => Some(Pathfinder::AStar(AStar::new())),
            Algorithm::Backtracking => Some(Pathfinder::Backtracking(Backtracking::new())),
            Algorithm::BellmanFord => Some(Pathfinder::BellmanFord(BellmanFord::new())),
            Algorithm::BFS => Some(Pathfinder::BFS(BFS::new())),
            Algorithm::DFS => Some(Pathfinder::DFS(DFS::new())),
            Algorithm::Dijkstra => Some(Pathfinder::Dijkstra(Dijkstra::new())),
            Algorithm::WFC => None,
        }
    }

    /// The name under which the algorithm is shown.
    pub fn label(&self) -> (text: &'static str)
        ensures
            text@ == match *self {
                Algorithm::AStar => "AStar"@,
                Algorithm::Backtracking => "Backtracking"@,
                Algorithm::BellmanFord => "Bellman-Ford"@,
                Algorithm::BFS => "Breadth-First Search (BFS)"@,
                Algorithm::DFS => "Depth-First Search (DFS)"@,
                Algorithm::Dijkstra => "Dijkstra's"@,
                Algorithm::WFC => "Wave Function Collapse"@,
            },
    {
        match self {
            Algorithm::AStar => "AStar",
            Algorithm::Backtracking => "Backtracking",
            Algorithm::BellmanFord => "Bellman-Ford",
            Algorithm::BFS => "Breadth-First Search (BFS)",
            Algorithm::DFS => "Depth-First Search (DFS)",
            Algorithm::Dijkstra => "Dijkstra's",
            Algorithm::WFC => "Wave Function Collapse",
        }
    }
}

/// One of the generators.
pub enum MazeGenerator {
    DFS(DFS),
    Backtracking(Backtracking),
    WFC(WFC),
}

impl MazeGenerator {
    /// Which algorithm the generator runs.
    pub open spec fn algorithm(&self) -> Algorithm {
        match self {
            MazeGenerator::DFS(_) => Algorithm::DFS,
            MazeGenerator::Backtracking(_) => Algorithm::Backtracking,
            MazeGenerator::WFC(_) => Algorithm::WFC,
        }
    }

    /// Which algorithm the generator runs.
    pub fn name(&self) -> (algorithm: Algorithm)
        ensures
            algorithm == self.algorithm(),
    {
        match self {
            MazeGenerator::DFS(_) => Algorithm::DFS,
            MazeGenerator::Backtracking(_) => Algorithm::Backtracking,
            MazeGenerator::WFC(_) => Algorithm::WFC,
        }
    }

    /// Runs the generator. There is a maze where the algorithm can
    /// generate mazes of the given kind and the request is valid.
    pub fn generate(
        &mut self,
        maze_type: MazeType,
        width: usize,
        height: usize,
        entrance: Point,
        rng: &mut StdRng,
        sink: &mut SnapshotSink,
    ) -> (made: Option<Maze>)
        ensures
            made is Some <==> old(self).algorithm().generates(maze_type) && valid_request(
                width,
                height,
                entrance,
            ),
            made is Some ==> {
                &&& (made->0).wf()
                &&& (made->0).maze_type == maze_type
                &&& (made->0).width == width
                &&& (made->0).height == height
                &&& well_generated((made->0)@, maze_type, width, height, entrance)
            },
            final(self).algorithm() == old(self).algorithm(),
            final(sink).follows(old(sink)),
            frames_grow(old(sink)@, final(sink)@),
            made is Some ==> final(sink)@.len() > old(sink)@.len() && final(sink)@.last() == (
                None::<PathfindingStats>,
                (made->0)@,
            ),
            made is None ==> final(sink)@ == old(sink)@,
    {
        match self {
            MazeGenerator::DFS(generator) => generator.generate(
                maze_type,
                width,
                height,
                entrance,
                rng,
                sink,
            ),
            MazeGenerator::Backtracking(generator) => generator.generate(
                maze_type,
                width,
                height,
                entrance,
                rng,
                sink,
            ),
            MazeGenerator::WFC(generator) => generator.generate(
                maze_type,
                width,
                height,
                entrance,
                rng,
                sink,
            ),
        }
    }
}

/// One of the searches.
pub enum Pathfinder {
    AStar(AStar),
    Backtracking(Backtracking),
    BellmanFord(BellmanFord),
    BFS(BFS),
    DFS(DFS),
    Dijkstra(Dijkstra),
}

impl Pathfinder {
    /// Which algorithm the search runs.
    pub open spec fn algorithm(&self) -> Algorithm {
        match self {
            Pathfinder::AStar(_) => Algorithm::AStar,
            Pathfinder::Backtracking(_) => Algorithm::Backtracking,
            Pathfinder::BellmanFord(_) => Algorithm::BellmanFord,
            Pathfinder::BFS(_) => Algorithm::BFS,
            Pathfinder::DFS(_) => Algorithm::DFS,
            Pathfinder::Dijkstra(_) => Algorithm::Dijkstra,
        }
    }

    /// Which algorithm the search runs.
    pub fn name(&self) -> (algorithm: Algorithm)
        ensures
            algorithm == self.algorithm(),
    {
        match self {
            Pathfinder::AStar(_) => Algorithm::AStar,
            Pathfinder::Backtracking(_) => Algorithm::Backtracking,
            Pathfinder::BellmanFord(_) => Algorithm::BellmanFord,
            Pathfinder::BFS(_) => Algorithm::BFS,
            Pathfinder::DFS(_) => Algorithm::DFS,
            Pathfinder::Dijkstra(_) => Algorithm::Dijkstra,
        }
    }

    /// The counters of the search, where it keeps any.
    pub open spec fn stats(&self) -> Option<PathfindingStats> {
        match *self {
            Pathfinder::AStar(search) => Some(search.stats),
            Pathfinder::Backtracking(search) => Some(search.stats),
            Pathfinder::DFS(search) => Some(search.stats),
            _ => None,
        }
    }

    /// The counters of the search, where it keeps any.
    pub fn get_stats(&self) -> (stats: Option<PathfindingStats>)
        ensures
            stats == self.stats(),
    {
        match self {
            Pathfinder::AStar(search) => search.get_stats(),
            Pathfinder::Backtracking(search) => search.get_stats(),
            Pathfinder::BellmanFord(search) => search.get_stats(),
            Pathfinder::BFS(search) => search.get_stats(),
            Pathfinder::DFS(search) => search.get_stats(),
            Pathfinder::Dijkstra(search) => search.get_stats(),
        }
    }

    /// Runs the search on `maze`.
    pub fn find_path(&mut self, maze: &mut Maze, sink: &mut SnapshotSink)
        requires
            searchable(old(maze)),
        ensures
            final(maze).wf(),
            final(maze).width == old(maze).width,
            final(maze).height == old(maze).height,
            final(maze).maze_type == old(maze).maze_type,
            complete_search_result(old(maze)@, final(maze)@),
            final(sink).extends(old(sink), old(maze)@),
            final(sink)@.len() > old(sink)@.len(),
            final(sink).shows(final(maze)),
            final(self).algorithm() == old(self).algorithm(),
            old(self).algorithm() == Algorithm::AStar || old(self).algorithm() == Algorithm::BFS
                || old(self).algorithm() == Algorithm::Dijkstra
                ==> super::pathfinding::shortest_search_result(old(maze)@, final(maze)@),
    {
        match self {
            Pathfinder::AStar(search) => search.find_path(maze, sink),
            Pathfinder::Backtracking(search) => search.find_path(maze, sink),
            Pathfinder::BellmanFord(search) => search.find_path(maze, sink),
            Pathfinder::BFS(search) => search.find_path(maze, sink),
            Pathfinder::DFS(search) => search.find_path(maze, sink),
            Pathfinder::Dijkstra(search) => search.find_path(maze, sink),
        }
    }
}

} // verus!
