use maze_lib::algorithms::maze_generation::is_valid_request;
use maze_lib::algorithms::{
    Algorithm, Backtracking, MazeGenerationAlgorithm, MazeGenerator, PathfindingAlgorithm, Point,
    SnapshotSink, BFS, DFS, WFC,
};
use maze_lib::{CellType, Maze, MazeType};
use rand::rngs::StdRng;
use rand::SeedableRng;

fn count(maze: &Maze, tag: CellType) -> usize {
    maze.original_cells.iter().filter(|c| c.get_type() == tag).count()
}

fn on_edge(maze: &Maze, p: Point) -> bool {
    let row = p.x >= 1 && p.x + 1 < maze.width && (p.y == 0 || p.y + 1 == maze.height);
    let column = p.y >= 1 && p.y + 1 < maze.height && (p.x == 0 || p.x + 1 == maze.width);
    row || column
}

/// What holds of every generated maze.
fn check_generated(maze: &Maze, maze_type: MazeType, width: usize, height: usize, entrance: Point) {
    assert_eq!(maze.maze_type, maze_type);
    assert_eq!(maze.width, width);
    assert_eq!(maze.height, height);
    assert_eq!(maze.cells.len(), width * height);
    assert_eq!(maze.cells, maze.original_cells);
    assert_eq!(count(maze, CellType::Entrance), 1);
    assert_eq!(count(maze, CellType::Exit), 1);
    assert_eq!(count(maze, CellType::Visited), 0);
    assert_eq!(count(maze, CellType::FinalPath), 0);
    assert_eq!(maze.get_entrance(), Some(entrance));
    let exit = maze.get_exit().unwrap();
    assert!(on_edge(maze, exit));
    let mut searched = maze.clone();
    let mut sink = SnapshotSink::disabled();
    BFS::new().find_path(&mut searched, &mut sink);
    assert_eq!(searched.get_cell(exit).get_type(), CellType::FinalPath);
    assert_eq!(searched.get_cell(entrance).get_type(), CellType::FinalPath);
}

#[test]
fn dfs_generates_connected_thick_mazes() {
    for seed in 0..20 {
        for (width, height, entrance) in [
            (3, 3, Point { x: 1, y: 1 }),
            (5, 5, Point { x: 1, y: 1 }),
            (11, 7, Point { x: 1, y: 1 }),
            (8, 6, Point { x: 3, y: 2 }),
            (9, 9, Point { x: 4, y: 4 }),
            (41, 41, Point { x: 1, y: 1 }),
        ] {
            let mut rng = StdRng::seed_from_u64(seed);
            let mut sink = SnapshotSink::disabled();
            let maze = DFS::new()
                .generate(MazeType::Thick, width, height, entrance, &mut rng, &mut sink)
                .unwrap();
            check_generated(&maze, MazeType::Thick, width, height, entrance);
            assert!(maze.cells.iter().all(|c| c.walls == 0));
        }
    }
}

#[test]
fn dfs_leaves_walls_between_corridors() {
    let mut rng = StdRng::seed_from_u64(4);
    let mut sink = SnapshotSink::disabled();
    let entrance = Point { x: 1, y: 1 };
    let maze = DFS::new().generate(MazeType::Thick, 9, 9, entrance, &mut rng, &mut sink).unwrap();
    let exit = maze.get_exit().unwrap();
    for y in 0..9 {
        for x in 0..9 {
            let p = Point { x, y };
            let tag = maze.get_cell(p).get_type();
            if x % 2 == 1 && y % 2 == 1 {
                assert_ne!(tag, CellType::Wall, "every cell of the lattice is reached");
            }
            if x % 2 == 0 && y % 2 == 0 {
                assert_eq!(tag, CellType::Wall);
            }
            if (x == 0 || y == 0 || x == 8 || y == 8) && p != exit {
                assert_eq!(tag, CellType::Wall);
            }
        }
    }
    // a tree on the sixteen cells of the lattice has fifteen passages
    let open = maze.cells.iter().filter(|c| c.get_type() != CellType::Wall).count();
    assert_eq!(open, 16 + 15 + 1);
}

#[test]
fn dfs_records_its_steps() {
    let mut rng = StdRng::seed_from_u64(8);
    let mut sink = SnapshotSink::new();
    let entrance = Point { x: 1, y: 1 };
    let maze = DFS::new().generate(MazeType::Thick, 7, 7, entrance, &mut rng, &mut sink).unwrap();
    // the entrance, eight passages and the finished maze
    assert_eq!(sink.len(), 1 + 8 + 1);
    assert!(sink.frames.iter().all(|f| f.stats.is_none()));
    assert_eq!(sink.frames.last().unwrap().maze.cells, maze.cells);
    assert_eq!(
        sink.frames[0].maze.cells.iter().filter(|c| c.get_type() == CellType::Path).count(),
        1
    );
}

#[test]
fn one_seed_one_maze() {
    let entrance = Point { x: 1, y: 1 };
    let make = |seed: u64| {
        let mut rng = StdRng::seed_from_u64(seed);
        let mut sink = SnapshotSink::disabled();
        DFS::new().generate(MazeType::Thick, 15, 15, entrance, &mut rng, &mut sink).unwrap()
    };
    assert_eq!(make(1).cells, make(1).cells);
    assert_ne!(make(1).cells, make(2).cells);
}

#[test]
fn dfs_refuses_what_it_cannot_generate() {
    let mut rng = StdRng::seed_from_u64(0);
    let mut sink = SnapshotSink::new();
    let mut dfs = DFS::new();
    let inside = Point { x: 1, y: 1 };
    assert!(dfs.generate(MazeType::Slim, 5, 5, inside, &mut rng, &mut sink).is_none());
    assert!(dfs.generate(MazeType::Thick, 2, 5, inside, &mut rng, &mut sink).is_none());
    assert!(dfs.generate(MazeType::Thick, 5, 2, inside, &mut rng, &mut sink).is_none());
    assert!(dfs.generate(MazeType::Thick, 0, 0, inside, &mut rng, &mut sink).is_none());
    for entrance in [
        Point { x: 0, y: 1 },
        Point { x: 1, y: 0 },
        Point { x: 4, y: 1 },
        Point { x: 1, y: 4 },
        Point { x: 7, y: 7 },
    ] {
        assert!(dfs.generate(MazeType::Thick, 5, 5, entrance, &mut rng, &mut sink).is_none());
    }
    assert!(dfs
        .generate(MazeType::Thick, usize::MAX, 5, inside, &mut rng, &mut sink)
        .is_none());
    assert_eq!(sink.len(), 0);
}

#[test]
fn valid_requests() {
    let inside = Point { x: 1, y: 1 };
    assert!(is_valid_request(3, 3, inside));
    assert!(is_valid_request(41, 41, Point { x: 39, y: 39 }));
    assert!(!is_valid_request(2, 3, inside));
    assert!(!is_valid_request(3, 3, Point { x: 2, y: 1 }));
    assert!(!is_valid_request(3, 3, Point { x: 1, y: 2 }));
    assert!(!is_valid_request(3, 3, Point { x: 0, y: 1 }));
    assert!(!is_valid_request(0x8000_0000, 3, inside));
    assert!(!is_valid_request(3, 0x8000_0000, inside));
    assert!(is_valid_request(0x7fff_ffff, 3, inside));
}

#[test]
fn backtracking_leaves_walls_between_the_corridors() {
    for seed in 0..10 {
        for (width, height, entrance) in
            [(3, 3, Point { x: 1, y: 1 }), (6, 5, Point { x: 2, y: 3 }), (11, 11, Point {
                x: 1,
                y: 1,
            })]
        {
            let mut rng = StdRng::seed_from_u64(seed);
            let mut sink = SnapshotSink::disabled();
            let maze = Backtracking::seeded(0)
                .generate(MazeType::Thick, width, height, entrance, &mut rng, &mut sink)
                .unwrap();
            check_generated(&maze, MazeType::Thick, width, height, entrance);
            assert!(maze.cells.iter().all(|c| c.walls == 0));
            let exit = maze.get_exit().unwrap();
            for y in 0..height {
                for x in 0..width {
                    let p = Point { x, y };
                    let tag = maze.get_cell(p).get_type();
                    let same_column = x % 2 == entrance.x % 2;
                    let same_row = y % 2 == entrance.y % 2;
                    if !same_column && !same_row && p != exit {
                        assert_eq!(tag, CellType::Wall);
                    }
                    if same_column && same_row && p != entrance && p != exit {
                        assert_eq!(tag, CellType::Path);
                    }
                }
            }
        }
    }
}

#[test]
fn backtracking_opens_edges_of_slim_mazes() {
    for seed in 0..10 {
        for (width, height, entrance) in
            [(3, 3, Point { x: 1, y: 1 }), (6, 5, Point { x: 2, y: 3 }), (11, 11, Point {
                x: 1,
                y: 1,
            }), (8, 9, Point { x: 3, y: 4 })]
        {
            let mut rng = StdRng::seed_from_u64(seed);
            let mut sink = SnapshotSink::disabled();
            let maze = Backtracking::seeded(0)
                .generate(MazeType::Slim, width, height, entrance, &mut rng, &mut sink)
                .unwrap();
            check_generated(&maze, MazeType::Slim, width, height, entrance);
            assert_eq!(count(&maze, CellType::Path), width * height - 2);
            let mut open_edges = 0;
            for y in 0..height {
                for x in 0..width {
                    let p = Point { x, y };
                    let off_lattice = x % 2 != entrance.x % 2 && y % 2 != entrance.y % 2;
                    if off_lattice {
                        assert_eq!(maze.get_cell(p).walls, 15);
                    }
                    if x + 1 < width {
                        let q = Point { x: x + 1, y };
                        assert_eq!(maze.is_passable(p, q), maze.is_passable(q, p));
                        if maze.is_passable(p, q) {
                            open_edges += 1;
                        }
                    }
                    if y + 1 < height {
                        let q = Point { x, y: y + 1 };
                        assert_eq!(maze.is_passable(p, q), maze.is_passable(q, p));
                        if maze.is_passable(p, q) {
                            open_edges += 1;
                        }
                    }
                }
            }
            // two edges for each jump to a cell of the lattice but the first,
            // and one more where the exit had to be opened
            let columns = (0..width).filter(|x| x % 2 == entrance.x % 2).count();
            let rows = (0..height).filter(|y| y % 2 == entrance.y % 2).count();
            let jumps = columns * rows - 1;
            assert!(open_edges == 2 * jumps || open_edges == 2 * jumps + 1);
        }
    }
}

#[test]
fn backtracking_opens_an_exit_where_no_corridor_touches_the_ring() {
    let entrance = Point { x: 1, y: 1 };
    let mut rng = StdRng::seed_from_u64(4);
    let mut sink = SnapshotSink::disabled();
    let maze = Backtracking::seeded(0)
        .generate(MazeType::Slim, 7, 7, entrance, &mut rng, &mut sink)
        .unwrap();
    check_generated(&maze, MazeType::Slim, 7, 7, entrance);
    let exit = maze.get_exit().unwrap();
    assert_eq!(exit, Point { x: 1, y: 0 });
    assert!(maze.is_passable(exit, entrance));
    assert!(maze.is_passable(entrance, exit));
    assert!(!maze.is_passable(exit, Point { x: 2, y: 0 }));
}

#[test]
fn backtracking_visits_every_cell_of_the_lattice_once() {
    let mut rng = StdRng::seed_from_u64(21);
    let mut sink = SnapshotSink::new();
    let entrance = Point { x: 1, y: 1 };
    Backtracking::seeded(0).generate(MazeType::Thick, 7, 5, entrance, &mut rng, &mut sink).unwrap();
    // three by two cells at odd coordinates, and the finished maze
    assert_eq!(sink.len(), 6 + 1);
    let mut rng = StdRng::seed_from_u64(21);
    let mut sink = SnapshotSink::new();
    Backtracking::seeded(0).generate(MazeType::Slim, 6, 6, Point { x: 2, y: 2 }, &mut rng,
        &mut sink);
    // three by three cells at even coordinates, and the finished maze
    assert_eq!(sink.len(), 9 + 1);
}

#[test]
fn backtracking_refuses_invalid_requests() {
    let mut rng = StdRng::seed_from_u64(0);
    let mut sink = SnapshotSink::disabled();
    let mut generator = Backtracking::seeded(0);
    assert!(generator
        .generate(MazeType::Slim, 2, 2, Point { x: 1, y: 1 }, &mut rng, &mut sink)
        .is_none());
    assert!(generator
        .generate(MazeType::Thick, 5, 5, Point { x: 0, y: 0 }, &mut rng, &mut sink)
        .is_none());
}

#[test]
fn wfc_generates_connected_thick_mazes() {
    for seed in 0..40 {
        for (width, height, entrance) in [
            (3, 3, Point { x: 1, y: 1 }),
            (5, 5, Point { x: 1, y: 1 }),
            (10, 8, Point { x: 1, y: 1 }),
            (12, 9, Point { x: 6, y: 4 }),
            (21, 21, Point { x: 10, y: 19 }),
        ] {
            let mut rng = StdRng::seed_from_u64(seed);
            let mut sink = SnapshotSink::disabled();
            let maze = WFC::new()
                .generate(MazeType::Thick, width, height, entrance, &mut rng, &mut sink)
                .unwrap();
            check_generated(&maze, MazeType::Thick, width, height, entrance);
            let exit = maze.get_exit().unwrap();
            for y in 0..height {
                for x in 0..width {
                    let p = Point { x, y };
                    let border = x == 0 || y == 0 || x + 1 == width || y + 1 == height;
                    if border && p != exit {
                        assert_eq!(maze.get_cell(p).get_type(), CellType::Wall);
                    }
                    assert_eq!(maze.get_cell(p).walls, 0);
                }
            }
        }
    }
}

#[test]
fn wfc_refuses_what_it_cannot_generate() {
    let mut rng = StdRng::seed_from_u64(0);
    let mut sink = SnapshotSink::disabled();
    let mut wfc = WFC::default();
    assert!(wfc.generate(MazeType::Slim, 9, 9, Point { x: 1, y: 1 }, &mut rng,
        &mut sink).is_none());
    assert!(wfc.generate(MazeType::Thick, 9, 2, Point { x: 1, y: 1 }, &mut rng,
        &mut sink).is_none());
    assert!(wfc.generate(MazeType::Thick, 9, 9, Point { x: 8, y: 1 }, &mut rng,
        &mut sink).is_none());
}

#[test]
fn generators_by_algorithm() {
    let entrance = Point { x: 1, y: 1 };
    for algorithm in Algorithm::all() {
        let generator = algorithm.get_maze_generator();
        let generates = matches!(algorithm,
            Algorithm::DFS | Algorithm::Backtracking | Algorithm::WFC);
        assert_eq!(generator.is_some(), generates);
        if let Some(mut generator) = generator {
            assert_eq!(generator.name(), algorithm);
            let mut rng = StdRng::seed_from_u64(5);
            let mut sink = SnapshotSink::disabled();
            let maze = generator.generate(MazeType::Thick, 9, 7, entrance, &mut rng,
                &mut sink).unwrap();
            check_generated(&maze, MazeType::Thick, 9, 7, entrance);
            let slim = generator.generate(MazeType::Slim, 9, 7, entrance, &mut rng, &mut sink);
            assert_eq!(slim.is_some(), algorithm == Algorithm::Backtracking);
        }
    }
    let mut direct = MazeGenerator::DFS(DFS::new());
    let mut rng = StdRng::seed_from_u64(5);
    let mut sink = SnapshotSink::disabled();
    assert!(direct.generate(MazeType::Thick, 1, 1, entrance, &mut rng, &mut sink).is_none());
}

fn inside(maze: &Maze) -> Vec<CellType> {
    let mut tags = Vec::new();
    for y in 1..maze.height - 1 {
        for x in 1..maze.width - 1 {
            tags.push(maze.get_cell(Point { x, y }).get_type());
        }
    }
    tags
}

#[test]
fn dfs_carves_differently_for_different_seeds() {
    let entrance = Point { x: 1, y: 1 };
    let mut seen: Vec<Vec<CellType>> = Vec::new();
    for seed in 0..10 {
        let mut rng = StdRng::seed_from_u64(seed);
        let mut sink = SnapshotSink::disabled();
        let maze =
            DFS::new().generate(MazeType::Thick, 13, 13, entrance, &mut rng, &mut sink).unwrap();
        let tags = inside(&maze);
        if !seen.contains(&tags) {
            seen.push(tags);
        }
    }
    assert!(seen.len() > 5);
}

#[test]
fn wfc_decides_differently_for_different_seeds() {
    let entrance = Point { x: 5, y: 5 };
    let mut seen: Vec<Vec<CellType>> = Vec::new();
    for seed in 0..10 {
        let mut rng = StdRng::seed_from_u64(seed);
        let mut sink = SnapshotSink::disabled();
        let maze =
            WFC::new().generate(MazeType::Thick, 11, 11, entrance, &mut rng, &mut sink).unwrap();
        let tags = inside(&maze);
        assert!(tags.contains(&CellType::Wall));
        assert!(tags.contains(&CellType::Path));
        if !seen.contains(&tags) {
            seen.push(tags);
        }
    }
    assert!(seen.len() > 5);
    let make = |seed: u64| {
        let mut rng = StdRng::seed_from_u64(seed);
        let mut sink = SnapshotSink::disabled();
        WFC::new().generate(MazeType::Thick, 11, 11, entrance, &mut rng, &mut sink).unwrap()
    };
    assert_eq!(make(3).cells, make(3).cells);
}

#[test]
fn wfc_without_room_draws_one_of_four_exits() {
    let entrance = Point { x: 1, y: 1 };
    let allowed =
        [Point { x: 1, y: 2 }, Point { x: 2, y: 1 }, Point { x: 1, y: 0 }, Point { x: 0, y: 1 }];
    let mut seen = Vec::new();
    for seed in 0..40 {
        let mut rng = StdRng::seed_from_u64(seed);
        let mut sink = SnapshotSink::disabled();
        let maze =
            WFC::new().generate(MazeType::Thick, 3, 3, entrance, &mut rng, &mut sink).unwrap();
        let exit = maze.get_exit().unwrap();
        assert!(allowed.contains(&exit));
        if !seen.contains(&exit) {
            seen.push(exit);
        }
    }
    assert_eq!(seen.len(), 4);
}

#[test]
fn wfc_records_each_decision() {
    let mut rng = StdRng::seed_from_u64(6);
    let mut sink = SnapshotSink::new();
    let entrance = Point { x: 2, y: 2 };
    let maze = WFC::new().generate(MazeType::Thick, 6, 6, entrance, &mut rng, &mut sink).unwrap();
    assert!(sink.len() >= 3);
    assert!(sink.len() <= 1 + 16 + 1);
    assert_eq!(sink.frames.last().unwrap().maze.cells, maze.cells);
    let first = &sink.frames[0].maze;
    assert_eq!(first.get_cell(entrance).get_type(), CellType::Entrance);
    assert_eq!(first.cells.iter().filter(|c| c.get_type() == CellType::Wall).count(), 35);
}

#[test]
fn wfc_opens_two_cells_beside_the_entrance_first() {
    for seed in 0..10 {
        let mut rng = StdRng::seed_from_u64(seed);
        let mut sink = SnapshotSink::new();
        let entrance = Point { x: 3, y: 3 };
        let maze =
            WFC::new().generate(MazeType::Thick, 7, 7, entrance, &mut rng, &mut sink).unwrap();
        let down = Point { x: 3, y: 4 };
        let right = Point { x: 4, y: 3 };
        for frame in &sink.frames[1..] {
            assert_eq!(frame.maze.get_cell(down).get_type(), CellType::Path);
            assert_eq!(frame.maze.get_cell(right).get_type(), CellType::Path);
        }
        assert_eq!(maze.get_cell(down).get_type(), CellType::Path);
        assert_eq!(maze.get_cell(right).get_type(), CellType::Path);
    }
    // beside the ring only the neighbours inside it are opened
    let mut rng = StdRng::seed_from_u64(1);
    let mut sink = SnapshotSink::new();
    let entrance = Point { x: 1, y: 5 };
    WFC::new().generate(MazeType::Thick, 7, 7, entrance, &mut rng, &mut sink).unwrap();
    let after_start = &sink.frames[1].maze;
    assert_eq!(after_start.get_cell(Point { x: 2, y: 5 }).get_type(), CellType::Path);
    assert_eq!(after_start.get_cell(Point { x: 1, y: 4 }).get_type(), CellType::Path);
    assert_eq!(after_start.get_cell(Point { x: 1, y: 6 }).get_type(), CellType::Wall);
    assert_eq!(after_start.get_cell(Point { x: 0, y: 5 }).get_type(), CellType::Wall);
}

#[test]
fn wfc_decides_every_cell_in_one_or_two_per_round() {
    for seed in 0..10 {
        let mut rng = StdRng::seed_from_u64(seed);
        let mut sink = SnapshotSink::new();
        let entrance = Point { x: 3, y: 3 };
        WFC::new().generate(MazeType::Thick, 7, 7, entrance, &mut rng, &mut sink).unwrap();
        // 25 cells inside the ring, less the entrance and the two beside it
        let rounds = sink.len() - 2;
        assert!(rounds <= 22);
        assert!(2 * rounds >= 22);
        for frame in &sink.frames {
            assert!(frame.stats.is_none());
        }
        // a path stays a path
        for pair in sink.frames.windows(2) {
            for (before, after) in pair[0].maze.cells.iter().zip(pair[1].maze.cells.iter()) {
                if before.get_type() == CellType::Path {
                    assert_eq!(after.get_type(), CellType::Path);
                }
            }
        }
    }
}

#[test]
fn wfc_opens_the_cell_beside_a_lonely_exit() {
    for seed in 0..20 {
        let mut rng = StdRng::seed_from_u64(seed);
        let mut sink = SnapshotSink::disabled();
        let entrance = Point { x: 4, y: 4 };
        let maze =
            WFC::new().generate(MazeType::Thick, 9, 9, entrance, &mut rng, &mut sink).unwrap();
        let exit = maze.get_exit().unwrap();
        let inward = if exit.y == 0 {
            Point { x: exit.x, y: 1 }
        } else if exit.y == 8 {
            Point { x: exit.x, y: 7 }
        } else if exit.x == 0 {
            Point { x: 1, y: exit.y }
        } else {
            Point { x: 7, y: exit.y }
        };
        assert_ne!(maze.get_cell(inward).get_type(), CellType::Wall);
    }
}
