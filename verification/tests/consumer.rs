use maze_lib::algorithms::{
    Algorithm, PathfindingAnimationState, PathfindingState, Point,
};
use maze_lib::{AnimationState, App, CellType};
use rand::rngs::StdRng;
use rand::SeedableRng;

fn app() -> App {
    let mut rng = StdRng::seed_from_u64(12);
    App::new(&mut rng)
}

#[test]
fn state_machines_start_at_rest() {
    assert_eq!(PathfindingState::default(), PathfindingState::NotStarted);
    assert_eq!(PathfindingAnimationState::default(), PathfindingAnimationState::NotRunning);
    assert_eq!(AnimationState::default(), AnimationState::NotRunning);
}

#[test]
fn new_app_shows_a_fresh_maze() {
    let app = app();
    assert!(app.running);
    assert_eq!(app.selected_algorithm, Algorithm::Backtracking);
    assert_eq!(app.pathfinding_state, PathfindingState::NotStarted);
    assert_eq!(app.animation_state, AnimationState::NotRunning);
    assert!(app.animation_steps.is_empty());
    assert_eq!(app.maze.width, 41);
    assert_eq!(app.maze.height, 41);
    assert_eq!(app.maze.get_entrance(), Some(Point { x: 1, y: 1 }));
    assert!(app.maze.get_exit().is_some());
}

#[test]
fn exit_stops_the_app() {
    let mut app = app();
    app.exit();
    assert!(!app.running);
    assert_eq!(app.selected_algorithm, Algorithm::Backtracking);
}

#[test]
fn selecting_cycles_through_the_algorithms() {
    let mut app = app();
    app.select_next_algorithm();
    assert_eq!(app.selected_algorithm, Algorithm::BellmanFord);
    app.select_previous_algorithm();
    app.select_previous_algorithm();
    assert_eq!(app.selected_algorithm, Algorithm::AStar);
    app.select_previous_algorithm();
    assert_eq!(app.selected_algorithm, Algorithm::WFC);
    app.select_next_algorithm();
    assert_eq!(app.selected_algorithm, Algorithm::AStar);
}

#[test]
fn pausing_toggles_a_replay_that_is_on() {
    let mut app = app();
    app.pause_unpause_animation();
    assert_eq!(app.animation_state, AnimationState::NotRunning);
    app.animation_state = AnimationState::Running;
    app.pause_unpause_animation();
    assert_eq!(app.animation_state, AnimationState::Paused);
    app.pause_unpause_animation();
    assert_eq!(app.animation_state, AnimationState::Running);
}

#[test]
fn find_path_queues_the_snapshots_and_tick_replays_them() {
    let mut app = app();
    app.selected_algorithm = Algorithm::BFS;
    let snapshot = app.maze.original_cells.clone();
    app.find_path();
    assert_eq!(app.pathfinding_state, PathfindingState::Finished);
    assert_eq!(app.animation_state, AnimationState::Running);
    assert_eq!(app.maze.cells, snapshot);
    let queued = app.animation_steps.len();
    assert!(queued > 2);
    let exit = app.maze.get_exit().unwrap();
    let last = app.animation_steps.back().unwrap().clone();
    assert_eq!(last.get_cell(exit).get_type(), CellType::FinalPath);
    let first = app.animation_steps.front().unwrap().clone();
    assert_eq!(first.get_cell(Point { x: 1, y: 1 }).get_type(), CellType::Visited);
    assert_eq!(first.cells.iter().filter(|c| c.get_type() == CellType::Visited).count(), 1);

    app.tick();
    assert_eq!(app.animation_steps.len(), queued - 1);
    assert_eq!(app.maze.cells, first.cells);
    app.pause_unpause_animation();
    app.tick();
    assert_eq!(app.animation_steps.len(), queued - 1);
    app.pause_unpause_animation();
    for _ in 0..queued - 1 {
        app.tick();
        assert_eq!(app.animation_state, AnimationState::Running);
    }
    assert!(app.animation_steps.is_empty());
    assert_eq!(app.maze.cells, last.cells);
    app.tick();
    assert_eq!(app.animation_state, AnimationState::NotRunning);
    assert_eq!(app.maze.cells, last.cells);
    app.tick();
    assert_eq!(app.animation_state, AnimationState::NotRunning);

    // a second search starts from the snapshot again
    app.find_path();
    assert_eq!(app.maze.cells, snapshot);
    assert_eq!(app.animation_steps.len(), queued);
}

#[test]
fn find_path_with_a_generator_selected_queues_nothing() {
    let mut app = app();
    app.selected_algorithm = Algorithm::WFC;
    app.find_path();
    assert_eq!(app.pathfinding_state, PathfindingState::Finished);
    assert_eq!(app.animation_state, AnimationState::NotRunning);
    assert!(app.animation_steps.is_empty());
}

#[test]
fn every_search_can_be_run_from_the_app() {
    for algorithm in Algorithm::pathfinding_algorithms() {
        let mut app = app();
        app.selected_algorithm = algorithm;
        app.find_path();
        let exit = app.maze.get_exit().unwrap();
        let last = app.animation_steps.back().unwrap();
        assert_eq!(last.get_cell(exit).get_type(), CellType::FinalPath);
        assert_eq!(app.selected_algorithm, algorithm);
    }
}

#[test]
fn reset_maze_starts_over() {
    let mut app = app();
    app.selected_algorithm = Algorithm::DFS;
    app.find_path();
    app.tick();
    let mut rng = StdRng::seed_from_u64(77);
    app.reset_maze(&mut rng);
    assert!(app.animation_steps.is_empty());
    assert_eq!(app.pathfinding_state, PathfindingState::NotStarted);
    assert_eq!(app.animation_state, AnimationState::NotRunning);
    assert_eq!(app.selected_algorithm, Algorithm::DFS);
    assert_eq!(app.maze.cells, app.maze.original_cells);
    assert_eq!(app.maze.get_entrance(), Some(Point { x: 1, y: 1 }));
    assert!(app.running);
}

#[test]
fn find_path_queues_every_snapshot_in_the_order_of_the_search() {
    for algorithm in Algorithm::pathfinding_algorithms() {
        let mut app = app();
        app.selected_algorithm = algorithm;
        app.find_path();
        let mut shown = app.maze.cells.clone();
        let mut tags = 0;
        for step in &app.animation_steps {
            let changed: Vec<usize> =
                (0..shown.len()).filter(|i| shown[*i] != step.cells[*i]).collect();
            assert!(changed.len() <= 1);
            for i in changed {
                let tag = step.cells[i].get_type();
                assert!(tag == CellType::Visited || tag == CellType::FinalPath);
                tags += 1;
            }
            shown = step.cells.clone();
        }
        // every cell that carries a tag at the end got it in a step of its own
        let tagged = shown
            .iter()
            .filter(|c| matches!(c.get_type(), CellType::Visited | CellType::FinalPath))
            .count();
        assert!(tags >= tagged);
        assert!(app.animation_steps.len() >= tagged);
    }
}
