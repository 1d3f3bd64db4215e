use maze_lib::algorithms::{Algorithm, Pathfinder, PathfindingStats, Point, SnapshotSink, BFS};
use maze_lib::{CellType, Maze, MazeCell, MazeType};

fn corridor() -> Maze {
    let mut maze = Maze::new(5, 3, MazeType::Thick, Some(CellType::Wall));
    maze.set_cell(1, 1, MazeCell::new(CellType::Entrance));
    maze.set_cell(2, 1, MazeCell::new(CellType::Path));
    maze.set_cell(3, 1, MazeCell::new(CellType::Exit));
    maze.backup();
    maze
}

#[test]
fn default_algorithm_is_backtracking() {
    assert_eq!(Algorithm::default(), Algorithm::Backtracking);
}

#[test]
fn all_algorithms_in_order() {
    assert_eq!(
        Algorithm::all(),
        vec![
            Algorithm::AStar,
            Algorithm::Backtracking,
            Algorithm::BellmanFord,
            Algorithm::BFS,
            Algorithm::DFS,
            Algorithm::Dijkstra,
            Algorithm::WFC
        ]
    );
}

#[test]
fn pathfinding_algorithms_are_all_but_wfc() {
    assert_eq!(
        Algorithm::pathfinding_algorithms(),
        vec![
            Algorithm::AStar,
            Algorithm::Backtracking,
            Algorithm::BellmanFord,
            Algorithm::BFS,
            Algorithm::DFS,
            Algorithm::Dijkstra
        ]
    );
    for algorithm in Algorithm::all() {
        assert_eq!(algorithm.is_pathfinding_algorithm(), algorithm != Algorithm::WFC);
        assert_eq!(
            Algorithm::pathfinding_algorithms().contains(&algorithm),
            algorithm.is_pathfinding_algorithm()
        );
    }
}

#[test]
fn generation_algorithms_by_kind_of_maze() {
    assert_eq!(
        Algorithm::maze_generation_algorithms(MazeType::Thick),
        vec![Algorithm::DFS, Algorithm::Backtracking, Algorithm::WFC]
    );
    assert_eq!(
        Algorithm::maze_generation_algorithms(MazeType::Slim),
        vec![Algorithm::Backtracking]
    );
}

#[test]
fn cycling_through_the_algorithms() {
    assert_eq!(Algorithm::AStar.next_cycle(), Algorithm::Backtracking);
    assert_eq!(Algorithm::Dijkstra.next_cycle(), Algorithm::WFC);
    assert_eq!(Algorithm::WFC.next_cycle(), Algorithm::AStar);
    assert_eq!(Algorithm::AStar.previous_cycle(), Algorithm::WFC);
    assert_eq!(Algorithm::BFS.previous_cycle(), Algorithm::BellmanFord);
    let all = Algorithm::all();
    for (i, algorithm) in all.iter().enumerate() {
        assert_eq!(algorithm.next_cycle(), all[(i + 1) % 7]);
        assert_eq!(algorithm.previous_cycle(), all[(i + 6) % 7]);
        assert_eq!(algorithm.next_cycle().previous_cycle(), *algorithm);
    }
}

#[test]
fn labels_of_the_algorithms() {
    assert_eq!(Algorithm::AStar.label(), "AStar");
    assert_eq!(Algorithm::Backtracking.label(), "Backtracking");
    assert_eq!(Algorithm::BellmanFord.label(), "Bellman-Ford");
    assert_eq!(Algorithm::BFS.label(), "Breadth-First Search (BFS)");
    assert_eq!(Algorithm::DFS.label(), "Depth-First Search (DFS)");
    assert_eq!(Algorithm::Dijkstra.label(), "Dijkstra's");
    assert_eq!(Algorithm::WFC.label(), "Wave Function Collapse");
}

#[test]
fn pathfinders_by_algorithm() {
    for algorithm in Algorithm::all() {
        let search = algorithm.get_pathfinder();
        assert_eq!(search.is_some(), algorithm.is_pathfinding_algorithm());
        if let Some(mut search) = search {
            assert_eq!(search.name(), algorithm);
            let mut maze = corridor();
            let mut sink = SnapshotSink::new();
            search.find_path(&mut maze, &mut sink);
            for x in 1..4 {
                assert_eq!(maze.get_cell(Point { x, y: 1 }).get_type(), CellType::FinalPath);
            }
            assert!(sink.len() >= 3);
            let counts = matches!(
                algorithm,
                Algorithm::AStar | Algorithm::Backtracking | Algorithm::DFS
            );
            assert_eq!(search.get_stats().is_some(), counts);
            if counts {
                assert_eq!(search.get_stats(), Some(PathfindingStats { steps: 3 }));
            }
        }
    }
    let mut direct = Pathfinder::BFS(BFS::new());
    assert_eq!(direct.name(), Algorithm::BFS);
    let mut maze = corridor();
    direct.find_path(&mut maze, &mut SnapshotSink::disabled());
    assert_eq!(maze.get_cell(Point { x: 2, y: 1 }).get_type(), CellType::FinalPath);
}
