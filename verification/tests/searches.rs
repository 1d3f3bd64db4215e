use maze_lib::algorithms::backtracking::FALLBACK_SEED;
use maze_lib::algorithms::priority_search::{least_index, manhattan_distance, Node};
use maze_lib::algorithms::{
    AStar, Algorithm, Backtracking, BellmanFord, Dijkstra, PathfindingAlgorithm,
    PathfindingResult, PathfindingStats, Point, SnapshotSink, BFS, DFS,
};
use maze_lib::{CellType, Maze, MazeCell, MazeType};
use rand::rngs::StdRng;
use rand::SeedableRng;
use std::sync::mpsc;

/// Builds a thick maze from rows of text: '#' wall, '.' path, 'S' entrance, 'E' exit.
fn maze_from(rows: &[&str]) -> Maze {
    let height = rows.len();
    let width = rows[0].len();
    let mut maze = Maze::new(width, height, MazeType::Thick, Some(CellType::Wall));
    for (y, row) in rows.iter().enumerate() {
        for (x, c) in row.chars().enumerate() {
            let tag = match c {
                '#' => CellType::Wall,
                '.' => CellType::Path,
                'S' => CellType::Entrance,
                'E' => CellType::Exit,
                _ => panic!("unknown cell"),
            };
            maze.set_cell(x, y, MazeCell::new(tag));
        }
    }
    maze.backup();
    maze
}

fn open_room() -> Maze {
    maze_from(&["#####", "#S..#", "#...#", "#..E#", "#####"])
}

fn two_routes() -> Maze {
    // a short route against the scanning order and a long one along it
    maze_from(&[
        "#########",
        "#E......#",
        "#.#####.#",
        "#.#...#.#",
        "#S..#...#",
        "#########",
    ])
}

fn sealed_exit() -> Maze {
    maze_from(&["#######", "#S..#E#", "#.#.###", "#...#.#", "#######"])
}

fn cells_tagged(maze: &Maze, tag: CellType) -> Vec<Point> {
    let mut found = Vec::new();
    for y in 0..maze.height {
        for x in 0..maze.width {
            if maze.get_cell(Point { x, y }).get_type() == tag {
                found.push(Point { x, y });
            }
        }
    }
    found
}

fn adjacent(a: Point, b: Point) -> bool {
    a.x.abs_diff(b.x) + a.y.abs_diff(b.y) == 1
}

fn extend_chain(chain: &mut Vec<Point>, tagged: &[Point], exit: Point) -> bool {
    let here = *chain.last().unwrap();
    if chain.len() == tagged.len() {
        return here == exit;
    }
    for next in tagged {
        if adjacent(*next, here) && !chain.contains(next) {
            chain.push(*next);
            if extend_chain(chain, tagged, exit) {
                return true;
            }
            chain.pop();
        }
    }
    false
}

/// The chain from the entrance to the exit that uses every cell tagged FinalPath once.
fn final_chain(maze: &Maze) -> Vec<Point> {
    let tagged = cells_tagged(maze, CellType::FinalPath);
    let entrance = maze.get_entrance().unwrap();
    let exit = maze.get_exit().unwrap();
    assert!(tagged.contains(&entrance));
    assert!(tagged.contains(&exit));
    let mut chain = vec![entrance];
    assert!(extend_chain(&mut chain, &tagged, exit), "the tagged cells form no chain");
    chain
}

fn topology(maze: &Maze) -> Vec<(bool, u8)> {
    maze.cells.iter().map(|c| (c.get_type() == CellType::Wall, c.walls)).collect()
}

fn run(search: &mut dyn PathfindingAlgorithm, maze: &mut Maze) -> Vec<PathfindingResult> {
    let mut sink = SnapshotSink::new();
    search.find_path(maze, &mut sink);
    sink.frames
}

#[test]
fn bfs_open_room_reports_five_cells() {
    let mut maze = open_room();
    let frames = run(&mut BFS::new(), &mut maze);
    assert_eq!(cells_tagged(&maze, CellType::FinalPath).len(), 5);
    let visited = cells_tagged(&maze, CellType::Visited).len();
    assert!(visited + 5 <= 25);
    assert_eq!(final_chain(&maze).len(), 5);
    assert_eq!(maze.get_cell(Point { x: 1, y: 1 }).get_type(), CellType::FinalPath);
    assert_eq!(maze.get_cell(Point { x: 3, y: 3 }).get_type(), CellType::FinalPath);
    // one frame for each cell that was expanded and one for each cell of the route
    assert_eq!(frames.len(), visited + 5 + 5);
}

#[test]
fn shortest_searches_agree_on_the_length() {
    for build in [open_room, two_routes] {
        let mut by_bfs = build();
        let mut by_dijkstra = build();
        let mut by_astar = build();
        run(&mut BFS::new(), &mut by_bfs);
        run(&mut Dijkstra::new(), &mut by_dijkstra);
        run(&mut AStar::new(), &mut by_astar);
        let n = final_chain(&by_bfs).len();
        assert_eq!(final_chain(&by_dijkstra).len(), n);
        assert_eq!(final_chain(&by_astar).len(), n);
    }
}

#[test]
fn shortest_route_of_two_is_found() {
    let mut maze = two_routes();
    run(&mut BFS::new(), &mut maze);
    assert_eq!(
        final_chain(&maze),
        vec![
            Point { x: 1, y: 4 },
            Point { x: 1, y: 3 },
            Point { x: 1, y: 2 },
            Point { x: 1, y: 1 }
        ]
    );
    let mut maze = two_routes();
    run(&mut AStar::new(), &mut maze);
    assert_eq!(final_chain(&maze).len(), 4);
    let mut maze = two_routes();
    run(&mut Dijkstra::new(), &mut maze);
    assert_eq!(final_chain(&maze).len(), 4);
}

#[test]
fn every_search_leaves_a_chain_from_entrance_to_exit() {
    for build in [open_room, two_routes] {
        let searches: Vec<Box<dyn PathfindingAlgorithm>> = vec![
            Box::new(AStar::new()),
            Box::new(Backtracking::seeded(5)),
            Box::new(BellmanFord::new()),
            Box::new(BFS::new()),
            Box::new(DFS::new()),
            Box::new(Dijkstra::new()),
        ];
        for mut search in searches {
            let mut maze = build();
            let before = topology(&maze);
            let snapshot = maze.original_cells.clone();
            let frames = run(search.as_mut(), &mut maze);
            let chain = final_chain(&maze);
            for pair in chain.windows(2) {
                assert!(adjacent(pair[0], pair[1]));
                assert!(maze.is_passable(pair[0], pair[1]));
            }
            assert_eq!(topology(&maze), before);
            assert_eq!(maze.original_cells, snapshot);
            assert_eq!(maze.get_cell(maze.get_exit().unwrap()).get_type(), CellType::FinalPath);
            assert!(!frames.is_empty());
            assert_eq!(frames.last().unwrap().maze.cells, maze.cells);
            for frame in &frames {
                assert_eq!(topology(&frame.maze), before);
                assert_eq!(frame.maze.original_cells, snapshot);
                for (cell, first) in frame.maze.cells.iter().zip(snapshot.iter()) {
                    let tag = cell.get_type();
                    assert!(cell == first || tag == CellType::Visited
                        || tag == CellType::FinalPath);
                }
            }
        }
    }
}

#[test]
fn unreachable_exit_leaves_no_final_path() {
    let reachable = vec![
        Point { x: 1, y: 1 },
        Point { x: 2, y: 1 },
        Point { x: 3, y: 1 },
        Point { x: 1, y: 2 },
        Point { x: 3, y: 2 },
        Point { x: 1, y: 3 },
        Point { x: 2, y: 3 },
        Point { x: 3, y: 3 },
    ];
    let searches: Vec<Box<dyn PathfindingAlgorithm>> = vec![
        Box::new(AStar::new()),
        Box::new(Backtracking::seeded(1)),
        Box::new(BellmanFord::new()),
        Box::new(BFS::new()),
        Box::new(DFS::new()),
        Box::new(Dijkstra::new()),
    ];
    for mut search in searches {
        let mut maze = sealed_exit();
        run(search.as_mut(), &mut maze);
        assert!(cells_tagged(&maze, CellType::FinalPath).is_empty());
        assert_eq!(maze.get_cell(Point { x: 5, y: 1 }).get_type(), CellType::Exit);
        let mut visited = cells_tagged(&maze, CellType::Visited);
        visited.sort_by_key(|p| (p.y, p.x));
        let mut expected = reachable.clone();
        expected.sort_by_key(|p| (p.y, p.x));
        assert_eq!(visited, expected);
        assert_eq!(maze.get_cell(Point { x: 5, y: 3 }).get_type(), CellType::Path);
    }
}

#[test]
fn bellman_ford_finds_no_negative_cycle() {
    for build in [open_room, two_routes, sealed_exit] {
        let mut maze = build();
        let mut search = BellmanFord::new();
        search.negative_cycle = true;
        let mut sink = SnapshotSink::disabled();
        search.find_path(&mut maze, &mut sink);
        assert!(!search.negative_cycle);
        assert_eq!(sink.len(), 0);
        assert!(sink.frames.is_empty());
    }
}

#[test]
fn bellman_ford_stops_once_the_distance_of_the_exit_is_final() {
    let mut maze = two_routes();
    run(&mut BellmanFord::new(), &mut maze);
    let chain = final_chain(&maze);
    assert_eq!(chain.first(), Some(&Point { x: 1, y: 4 }));
    assert_eq!(chain.last(), Some(&Point { x: 1, y: 1 }));
    // the short route against the scanning order, not the long one along it
    assert_eq!(chain.len(), 4);
    for build in [open_room, two_routes] {
        let mut relaxed = build();
        run(&mut BellmanFord::new(), &mut relaxed);
        let mut level = build();
        run(&mut BFS::new(), &mut level);
        assert_eq!(
            cells_tagged(&relaxed, CellType::FinalPath).len(),
            cells_tagged(&level, CellType::FinalPath).len()
        );
    }
}

fn corridor() -> Maze {
    maze_from(&["#######", "#..SE.#", "#######"])
}

#[test]
fn astar_leaves_the_cells_behind_the_entrance_untouched() {
    let mut maze = corridor();
    let mut astar = AStar::new();
    run(&mut astar, &mut maze);
    assert_eq!(maze.get_cell(Point { x: 4, y: 1 }).get_type(), CellType::FinalPath);
    assert_eq!(maze.get_cell(Point { x: 3, y: 1 }).get_type(), CellType::FinalPath);
    for x in [1, 2, 5] {
        assert_eq!(maze.get_cell(Point { x, y: 1 }).get_type(), CellType::Path);
    }
    for y in [0, 2] {
        for x in 0..7 {
            assert_eq!(maze.get_cell(Point { x, y }).get_type(), CellType::Wall);
        }
    }
    assert_eq!(astar.stats.steps, 2);
}

#[test]
fn searches_that_find_shortest_routes_go_no_further_than_the_exit() {
    let searches: Vec<Box<dyn PathfindingAlgorithm>> =
        vec![Box::new(Dijkstra::new()), Box::new(BFS::new())];
    for mut search in searches {
        let mut maze = corridor();
        run(search.as_mut(), &mut maze);
        assert_eq!(cells_tagged(&maze, CellType::FinalPath).len(), 2);
        // the exit is one move away: no cell two moves away is expanded
        assert_eq!(maze.get_cell(Point { x: 1, y: 1 }).get_type(), CellType::Path);
        assert_eq!(maze.get_cell(Point { x: 5, y: 1 }).get_type(), CellType::Path);
    }
    let mut maze = two_routes();
    run(&mut AStar::new(), &mut maze);
    let entrance = Point { x: 1, y: 4 };
    let exit = Point { x: 1, y: 1 };
    for p in cells_tagged(&maze, CellType::Visited) {
        // at least the Manhattan distance from the entrance, plus the estimate
        let least = p.x.abs_diff(entrance.x) + p.y.abs_diff(entrance.y);
        let estimate = p.x.abs_diff(exit.x) + p.y.abs_diff(exit.y);
        assert!(least + estimate <= 3);
    }
}

#[test]
fn a_live_sink_holds_its_channel_until_the_other_end_is_gone() {
    let (sender, receiver) = mpsc::channel();
    let mut sink = SnapshotSink::live(sender);
    assert!(sink.live.is_some());
    assert!(SnapshotSink::new().live.is_none());
    assert!(SnapshotSink::disabled().live.is_none());
    let maze = open_room();
    sink.send(&maze, None);
    assert!(sink.live.is_some());
    assert_eq!(receiver.recv().unwrap().maze.cells, maze.cells);
    drop(receiver);
    sink.send(&maze, None);
    assert!(sink.live.is_none());
}

#[test]
fn depth_first_searches_leave_visited_cells_off_the_chain() {
    let mut maze = two_routes();
    let mut dfs = DFS::new();
    let frames = run(&mut dfs, &mut maze);
    let chain = final_chain(&maze);
    let visited = cells_tagged(&maze, CellType::Visited);
    assert_eq!(dfs.stats.steps, chain.len() + visited.len());
    assert_eq!(dfs.get_stats(), Some(PathfindingStats { steps: chain.len() + visited.len() }));
    assert!(frames.iter().all(|f| f.stats.is_none()));
    // the fixed order tries down, right, up, left: the search takes the long way round
    assert_eq!(chain.len(), 18);
    assert!(visited.is_empty());

    let mut maze = two_routes();
    let mut backtracking = Backtracking::seeded(17);
    let frames = run(&mut backtracking, &mut maze);
    let chain = final_chain(&maze);
    let visited = cells_tagged(&maze, CellType::Visited);
    assert_eq!(backtracking.stats.steps, chain.len() + visited.len());
    assert_eq!(frames.last().unwrap().stats, Some(backtracking.stats));
    assert!(frames.iter().all(|f| f.stats.is_some()));
}

#[test]
fn backtracking_with_one_seed_repeats_itself() {
    let mut first = open_room();
    let mut second = open_room();
    run(&mut Backtracking::seeded(42), &mut first);
    run(&mut Backtracking::seeded(42), &mut second);
    assert_eq!(first.cells, second.cells);
    let mut unseeded = open_room();
    run(&mut Backtracking::new(), &mut unseeded);
    assert!(final_chain(&unseeded).len() >= 5);
    run(&mut Backtracking::default(), &mut open_room());
}

#[test]
fn steps_add_up_over_runs() {
    let mut dfs = DFS::default();
    assert_eq!(dfs.stats.steps, 0);
    let mut maze = open_room();
    run(&mut dfs, &mut maze);
    let once = dfs.stats.steps;
    assert!(once >= 5);
    maze.reset();
    run(&mut dfs, &mut maze);
    assert_eq!(dfs.stats.steps, 2 * once);
    let mut stats = PathfindingStats::default();
    stats.new_step();
    stats.new_step();
    assert_eq!(stats.steps, 2);
}

#[test]
fn astar_counts_its_expansions() {
    let mut astar = AStar::new();
    let mut maze = open_room();
    let frames = run(&mut astar, &mut maze);
    let route = final_chain(&maze).len();
    assert_eq!(astar.stats.steps, frames.len() - route);
    assert_eq!(astar.get_stats(), Some(astar.stats));
    assert_eq!(frames[0].stats, Some(PathfindingStats { steps: 1 }));
    assert_eq!(Dijkstra::default().get_stats(), None);
    assert_eq!(BFS::default().get_stats(), None);
    assert_eq!(BellmanFord::default().get_stats(), None);
    assert_eq!(AStar::default().get_stats(), Some(PathfindingStats { steps: 0 }));
}

#[test]
fn astar_expands_no_more_cells_than_dijkstra_here() {
    let mut guided = open_room();
    let mut blind = open_room();
    let a = run(&mut AStar::new(), &mut guided).len();
    let d = run(&mut Dijkstra::new(), &mut blind).len();
    assert!(a <= d);
}

#[test]
fn names_of_the_searches() {
    assert_eq!(AStar::new().name(), Algorithm::AStar);
    assert_eq!(Backtracking::seeded(0).name(), Algorithm::Backtracking);
    assert_eq!(BellmanFord::new().name(), Algorithm::BellmanFord);
    assert_eq!(BFS::new().name(), Algorithm::BFS);
    assert_eq!(DFS::new().name(), Algorithm::DFS);
    assert_eq!(Dijkstra::new().name(), Algorithm::Dijkstra);
}

#[test]
fn reset_after_a_search_restores_the_snapshot() {
    let searches: Vec<Box<dyn PathfindingAlgorithm>> = vec![
        Box::new(AStar::new()),
        Box::new(Backtracking::seeded(3)),
        Box::new(BellmanFord::new()),
        Box::new(BFS::new()),
        Box::new(DFS::new()),
        Box::new(Dijkstra::new()),
    ];
    for mut search in searches {
        let mut maze = two_routes();
        let snapshot = maze.original_cells.clone();
        let entrance = maze.get_entrance();
        let exit = maze.get_exit();
        run(search.as_mut(), &mut maze);
        assert_eq!(maze.get_entrance(), entrance);
        assert_eq!(maze.get_exit(), exit);
        maze.reset();
        assert_eq!(maze.cells, snapshot);
        assert!(cells_tagged(&maze, CellType::Visited).is_empty());
        assert!(cells_tagged(&maze, CellType::FinalPath).is_empty());
        assert_eq!(maze.get_entrance(), entrance);
        assert_eq!(maze.get_exit(), exit);
        run(search.as_mut(), &mut maze);
        let again = maze.from_original().from_original();
        assert_eq!(again.cells, snapshot);
        assert_eq!(again.original_cells, snapshot);
        maze.reset();
        assert_eq!(maze.cells, snapshot);
    }
}

#[test]
fn slim_walls_are_respected() {
    // a slim maze of 3 by 2 cells with a wall between (0, 0) and (1, 0)
    let mut maze = Maze::new(3, 2, MazeType::Slim, None);
    let mut left = MazeCell::new(CellType::Entrance);
    left.walls = 0b0100;
    maze.set_cell(0, 0, left);
    let mut middle = MazeCell::new(CellType::Exit);
    middle.walls = 0b1000;
    maze.set_cell(1, 0, middle);
    maze.backup();
    let searches: Vec<Box<dyn PathfindingAlgorithm>> = vec![
        Box::new(AStar::new()),
        Box::new(Backtracking::seeded(9)),
        Box::new(BellmanFord::new()),
        Box::new(BFS::new()),
        Box::new(DFS::new()),
        Box::new(Dijkstra::new()),
    ];
    for mut search in searches {
        let mut copy = maze.clone();
        run(search.as_mut(), &mut copy);
        let chain = final_chain(&copy);
        assert!(chain.len() >= 4, "the wall must be walked around");
        for pair in chain.windows(2) {
            assert!(copy.is_passable(pair[0], pair[1]));
        }
        assert_eq!(copy.get_cell(Point { x: 0, y: 0 }).walls, 0b0100);
        assert_eq!(copy.get_cell(Point { x: 1, y: 0 }).walls, 0b1000);
    }
    let mut shortest = maze.clone();
    run(&mut BFS::new(), &mut shortest);
    assert_eq!(
        final_chain(&shortest),
        vec![
            Point { x: 0, y: 0 },
            Point { x: 0, y: 1 },
            Point { x: 1, y: 1 },
            Point { x: 1, y: 0 }
        ]
    );
}

#[test]
fn live_sink_passes_on_what_a_recording_sink_keeps() {
    let mut recorded = two_routes();
    let frames = run(&mut BFS::new(), &mut recorded);
    let (sender, receiver) = mpsc::channel();
    let mut streamed = two_routes();
    {
        let mut sink = SnapshotSink::live(sender);
        BFS::new().find_path(&mut streamed, &mut sink);
        assert!(sink.frames.is_empty());
    }
    let received: Vec<PathfindingResult> = receiver.iter().collect();
    assert_eq!(received.len(), frames.len());
    for (a, b) in received.iter().zip(frames.iter()) {
        assert_eq!(a.maze.cells, b.maze.cells);
        assert_eq!(a.stats, b.stats);
    }
    assert_eq!(received.last().unwrap().maze.cells, streamed.cells);
    assert_ne!(received[0].maze.cells, received.last().unwrap().maze.cells);
}

#[test]
fn live_sink_survives_a_receiver_that_is_gone() {
    let (sender, receiver) = mpsc::channel();
    drop(receiver);
    let mut maze = open_room();
    let mut sink = SnapshotSink::live(sender);
    BFS::new().find_path(&mut maze, &mut sink);
    assert!(sink.live.is_none());
    assert_eq!(final_chain(&maze).len(), 5);
}

#[test]
fn sinks_keep_or_drop() {
    let maze = open_room();
    let mut keeping = SnapshotSink::new();
    assert!(keeping.recording);
    keeping.send(&maze, Some(PathfindingStats { steps: 3 }));
    keeping.send(&maze, None);
    assert_eq!(keeping.len(), 2);
    assert_eq!(keeping.frames[0].stats, Some(PathfindingStats { steps: 3 }));
    assert_eq!(keeping.frames[1].stats, None);
    assert_eq!(keeping.frames[0].maze.cells, maze.cells);
    let mut dropping = SnapshotSink::disabled();
    dropping.send(&maze, None);
    assert_eq!(dropping.len(), 0);
}

#[test]
fn manhattan_distance_adds_the_offsets() {
    let a = Point { x: 1, y: 1 };
    let b = Point { x: 3, y: 3 };
    assert_eq!(manhattan_distance(&a, &b), 4);
    assert_eq!(manhattan_distance(&b, &a), 4);
    assert_eq!(manhattan_distance(&a, &a), 0);
    assert_eq!(manhattan_distance(&Point { x: 7, y: 2 }, &Point { x: 2, y: 10 }), 13);
    assert_eq!(AStar::new().heuristic(&a, &b), 4);
}

#[test]
fn least_index_is_the_first_of_the_least() {
    let p = Point { x: 0, y: 0 };
    let open = vec![
        Node { point: p, g: 4, h: 3 },
        Node { point: p, g: 2, h: 3 },
        Node { point: p, g: 5, h: 0 },
        Node { point: p, g: 0, h: 9 },
    ];
    assert_eq!(least_index(&open), 1);
    assert_eq!(least_index(&open[..1].to_vec()), 0);
}

#[test]
fn backtracking_tries_the_directions_in_different_orders() {
    let mut seen: Vec<Vec<MazeCell>> = Vec::new();
    for seed in 0..20 {
        let mut maze = maze_from(&[
            "#######", "#S....#", "#.....#", "#.....#", "#.....#", "#....E#", "#######",
        ]);
        run(&mut Backtracking::seeded(seed), &mut maze);
        final_chain(&maze);
        if !seen.contains(&maze.cells) {
            seen.push(maze.cells.clone());
        }
    }
    assert!(seen.len() > 5);
}

#[test]
fn frames_retrace_the_search_one_tag_at_a_time() {
    let searches: Vec<Box<dyn PathfindingAlgorithm>> = vec![
        Box::new(AStar::new()),
        Box::new(Backtracking::seeded(2)),
        Box::new(BellmanFord::new()),
        Box::new(BFS::new()),
        Box::new(DFS::new()),
        Box::new(Dijkstra::new()),
    ];
    for mut search in searches {
        let mut maze = two_routes();
        let mut shown = maze.cells.clone();
        let frames = run(search.as_mut(), &mut maze);
        for frame in &frames {
            let changed: Vec<usize> =
                (0..shown.len()).filter(|i| shown[*i] != frame.maze.cells[*i]).collect();
            assert!(changed.len() <= 1);
            for i in changed {
                let tag = frame.maze.cells[i].get_type();
                assert!(tag == CellType::Visited || tag == CellType::FinalPath);
                assert_eq!(frame.maze.cells[i].walls, shown[i].walls);
            }
            shown = frame.maze.cells.clone();
        }
        assert_eq!(shown, maze.cells);
    }
}

#[test]
fn backtracking_seed_fixes_the_generator() {
    assert!(Backtracking::seeded(42).rng == Backtracking::seeded(42).rng);
    assert!(Backtracking::seeded(42).rng != Backtracking::seeded(43).rng);
    assert!(Backtracking::seeded(0).rng != Backtracking::seeded(1).rng);
    assert_eq!(Backtracking::seeded(42).stats.steps, 0);
}

#[test]
fn backtracking_falls_back_to_a_fixed_seed_without_entropy() {
    assert_eq!(FALLBACK_SEED, 0);
    let drawn = StdRng::seed_from_u64(77);
    let search = Backtracking::with_generator(Ok(drawn.clone()));
    assert!(search.rng == drawn);
    assert_eq!(search.stats.steps, 0);
    let failed = rand::Error::new("the system has no entropy");
    let search = Backtracking::with_generator(Err(failed));
    assert!(search.rng == StdRng::seed_from_u64(0));
    assert!(search.rng == Backtracking::seeded(0).rng);
    assert_eq!(search.stats.steps, 0);
    assert_eq!(Backtracking::new().stats.steps, 0);
    assert_eq!(Backtracking::default().stats.steps, 0);
}

#[test]
fn a_sink_gives_up_its_channel_when_a_frame_was_not_taken() {
    let (sender, receiver) = mpsc::channel();
    let mut sink = SnapshotSink::live(sender);
    sink.after_delivery(true);
    assert!(sink.live.is_some());
    assert!(!sink.recording);
    assert!(sink.frames.is_empty());
    sink.after_delivery(false);
    assert!(sink.live.is_none());
    sink.after_delivery(true);
    assert!(sink.live.is_none());
    drop(receiver);
    let mut keeping = SnapshotSink::new();
    keeping.send(&open_room(), None);
    keeping.after_delivery(false);
    assert!(keeping.recording);
    assert_eq!(keeping.frames.len(), 1);
}

#[test]
fn a_frame_is_a_copy_of_the_maze_with_the_counters() {
    let maze = two_routes();
    let stats = Some(PathfindingStats { steps: 9 });
    let frame = SnapshotSink::frame_of(&maze, stats);
    assert_eq!(frame.stats, stats);
    assert_eq!(frame.maze.cells, maze.cells);
    assert_eq!(frame.maze.original_cells, maze.original_cells);
    assert_eq!(frame.maze.width, maze.width);
    assert_eq!(frame.maze.height, maze.height);
    assert_eq!(SnapshotSink::frame_of(&maze, None).stats, None);
}
