use rand::rngs::StdRng;
use std::collections::VecDeque;
use vstd::prelude::*;
use crate::algorithms::algorithm::Algorithm;
use crate::algorithms::dfs::DFS;
use crate::algorithms::maze_generation::{valid_request, well_generated, MazeGenerationAlgorithm};
use crate::algorithms::pathfinding::{
    complete_search_result, frames_extend, lemma_frames_extend_facts, marks_only, one_tag_apart,
    Frame, PathfindingState, SnapshotSink,
};
use crate::algorithms::point::Point;
use crate::maze::{Maze, MazeType, MazeView};

verus! {

/// Whether recorded snapshots are being replayed.
#[derive(Debug, Clone, Copy, PartialEq, Eq, Structural)]
pub enum AnimationState {
    NotRunning,
    Running,
    Paused,
}

impl Default for AnimationState {
    fn default() -> (s: Self)
        ensures
            s == AnimationState::NotRunning,
    {
        AnimationState::NotRunning
    }
}

/// The state of a consumer of snapshots: the maze on show, the algorithm
/// that is selected, the snapshots that are still to be shown, and the two
/// state machines of the search and of the replay.
pub struct App {
    pub maze: Maze,
    pub selected_algorithm: Algorithm,
    pub animation_steps: VecDeque<Maze>,
    pub running: bool,
    pub pathfinding_state: PathfindingState,
    pub animation_state: AnimationState,
}

/// Whether a maze is ready to be searched once it is reset.
pub open spec fn resettable(m: MazeView) -> bool {
    &&& m.restored().unmarked()
    &&& m.entrance() is Some
    &&& m.exit() is Some
}

/// Whether the mazes of `steps` retrace a search of the maze `base` one
/// tag at a time: the first is `base` with one tag of the search, each
/// further one is the one before it with one more, and none differs from
/// `base` but in tags of the search.
pub open spec fn retraces(steps: Seq<Maze>, base: MazeView) -> bool {
    retraced(steps.map_values(|maze: Maze| maze@), base)
}

/// Whether `views` retrace a search of the maze `base` one tag at a time.
#[verifier::opaque]
pub open spec fn retraced(views: Seq<MazeView>, base: MazeView) -> bool {
    forall|i: int|
        0 <= i < views.len() ==> {
            &&& marks_only(base, #[trigger] views[i])
            &&& one_tag_apart(
                if i == 0 {
                    base
                } else {
                    views[i - 1]
                },
                views[i],
            )
        }
}

/// The frames that a search sent to an empty sink retrace the search.
pub proof fn lemma_frames_retrace(frames: Seq<Frame>, base: MazeView)
    requires
        frames_extend(Seq::<Frame>::empty(), frames, base),
    ensures
        retraced(frames.map_values(|frame: Frame| frame.1), base),
{
    reveal(retraced);
    lemma_frames_extend_facts(Seq::<Frame>::empty(), frames, base);
    let views = frames.map_values(|frame: Frame| frame.1);
    assert forall|i: int| 0 <= i < views.len() implies marks_only(base, #[trigger] views[i])
        && one_tag_apart(
        if i == 0 {
            base
        } else {
            views[i - 1]
        },
        views[i],
    ) by {
        assert(views[i] == frames[i].1);
        if i > 0 {
            assert(views[i - 1] == frames[i - 1].1);
        }
    }
}

impl App {
    /// The maze on show and the snapshots to be shown are well formed, and
    /// all are states of one maze that is ready to be searched once it is
    /// reset.
    pub open spec fn wf(&self) -> bool {
        &&& self.maze.wf()
        &&& resettable(self.maze@)
        &&& forall|i: int|
            0 <= i < self.animation_steps@.len() ==> {
                &&& (#[trigger] self.animation_steps@[i]).wf()
                &&& self.animation_steps@[i]@.same_topology(self.maze@)
            }
    }

    /// A running consumer that shows a fresh thick maze of 41 by 41 cells,
    /// carved depth first from the entrance at `(1, 1)`.
    pub fn new(rng: &mut StdRng) -> (app: Self)
        ensures
            app.wf(),
            well_generated(app.maze@, MazeType::Thick, 41, 41, Point { x: 1, y: 1 }),
            app.selected_algorithm == Algorithm::Backtracking,
            app.animation_steps@.len() == 0,
            app.running,
            app.pathfinding_state == PathfindingState::NotStarted,
            app.animation_state == AnimationState::NotRunning,
    {
        let maze = Self::fresh_maze(rng);
        App {
            maze,
            selected_algorithm: Algorithm::Backtracking,
            animation_steps: VecDeque::new(),
            running: true,
            pathfinding_state: PathfindingState::NotStarted,
            animation_state: AnimationState::NotRunning,
        }
    }

    /// A fresh thick maze of 41 by 41 cells, carved depth first from the
    /// entrance at `(1, 1)`.
    fn fresh_maze(rng: &mut StdRng) -> (maze: Maze)
        ensures
            maze.wf(),
            resettable(maze@),
            well_generated(maze@, MazeType::Thick, 41, 41, Point { x: 1, y: 1 }),
    {
        let mut dfs = DFS::new();
        let mut sink = SnapshotSink::disabled();
        let entrance = Point { x: 1, y: 1 };
        assert(valid_request(41, 41, entrance));
        let made = dfs.generate(MazeType::Thick, 41, 41, entrance, rng, &mut sink);
        let maze = made.unwrap();
        assert(maze@.restored() == maze@);
        maze
    }

    /// Stops the consumer.
    pub fn exit(&mut self)
        ensures
            !final(self).running,
            final(self).maze == old(self).maze,
            final(self).selected_algorithm == old(self).selected_algorithm,
            final(self).animation_steps == old(self).animation_steps,
            final(self).pathfinding_state == old(self).pathfinding_state,
            final(self).animation_state == old(self).animation_state,
    {
        self.running = false;
    }

    /// Drops the snapshots, shows a fresh maze and puts both state machines
    /// back to their start.
    pub fn reset_maze(&mut self, rng: &mut StdRng)
        ensures
            final(self).wf(),
            well_generated(final(self).maze@, MazeType::Thick, 41, 41, Point { x: 1, y: 1 }),
            final(self).animation_steps@.len() == 0,
            final(self).pathfinding_state == PathfindingState::NotStarted,
            final(self).animation_state == AnimationState::NotRunning,
            final(self).selected_algorithm == old(self).selected_algorithm,
            final(self).running == old(self).running,
    {
        self.animation_steps.clear();
        self.maze = Self::fresh_maze(rng);
        self.animation_state = AnimationState::NotRunning;
        self.pathfinding_state = PathfindingState::NotStarted;
    }

    /// Resets the maze on show, runs the selected search on a copy of it
    /// and queues every snapshot of the search for replay, in the order in
    /// which the search sent them. Where the selected algorithm is no
    /// search, nothing is queued.
    #[verifier::rlimit(40)]
    pub fn find_path(&mut self)
        requires
            old(self).wf(),
        ensures
            final(self).wf(),
            final(self).maze@ == old(self).maze@.restored(),
            final(self).pathfinding_state == PathfindingState::Finished,
            final(self).selected_algorithm == old(self).selected_algorithm,
            final(self).running == old(self).running,
            old(self).selected_algorithm.searches() ==> {
                &&& final(self).animation_state == AnimationState::Running
                &&& final(self).animation_steps@.len() > 0
                &&& retraces(final(self).animation_steps@, final(self).maze@)
                &&& complete_search_result(
                    final(self).maze@,
                    final(self).animation_steps@.last()@,
                )
            },
            !old(self).selected_algorithm.searches() ==> {
                &&& final(self).animation_state == old(self).animation_state
                &&& final(self).animation_steps@.len() == 0
            },
    {
        self.animation_steps.clear();
        self.maze.reset();
        self.pathfinding_state = PathfindingState::Running;
        let ghost shown = self.maze@;
        match self.selected_algorithm.get_pathfinder() {
            Some(mut search) => {
                let mut maze = self.maze.clone();
                let mut sink = SnapshotSink::new();
                let ghost start = sink@;
                search.find_path(&mut maze, &mut sink);
                let ghost kept = sink.kept();
                let ghost searched = maze@;
                let mut frames = sink.frames;
                proof {
                    lemma_frames_extend_facts(start, sink@, shown);
                    assert(start =~= Seq::<Frame>::empty());
                    lemma_frames_retrace(sink@, shown);
                    assert(kept == sink@);
                    assert(kept.len() == frames@.len());
                    assert(kept.last().1 == searched);
                    assert forall|i: int| 0 <= i < frames@.len() implies (
                    #[trigger] frames@[i]).maze.wf() && frames@[i].maze@ == kept[i].1 by {
                        assert(kept[i].1.same_topology(shown));
                    }
                }
                while frames.len() > 0
                    invariant
                        self.maze.wf(),
                        self.maze@ == shown,
                        resettable(shown),
                        self.pathfinding_state == PathfindingState::Running,
                        self.selected_algorithm == old(self).selected_algorithm,
                        self.running == old(self).running,
                        frames@.len() <= kept.len(),
                        forall|i: int|
                            0 <= i < frames@.len() ==> (#[trigger] frames@[i]).maze@ == kept[i].1,
                        forall|i: int|
                            0 <= i < frames@.len() ==> (#[trigger] frames@[i]).maze.wf(),
                        forall|i: int| 0 <= i < kept.len()
                            ==> (#[trigger] kept[i]).1.same_topology(shown),
                        retraced(kept.map_values(|frame: Frame| frame.1), shown),
                        self.animation_steps@.len() == kept.len() - frames@.len(),
                        forall|i: int|
                            0 <= i < self.animation_steps@.len() ==> {
                                &&& (#[trigger] self.animation_steps@[i]).wf()
                                &&& self.animation_steps@[i]@ == kept[frames@.len() + i].1
                            },
                        frames@.len() < kept.len() ==> self.animation_state
                            == AnimationState::Running,
                        frames@.len() == kept.len() ==> self.animation_state == old(
                            self,
                        ).animation_state,
                    decreases frames@.len(),
                {
                    let ghost before = self.animation_steps@;
                    let ghost at = frames@.len() - 1;
                    match frames.pop() {
                        Some(frame) => {
                            self.animation_state = AnimationState::Running;
                            self.animation_steps.push_front(frame.maze);
                            proof {
                                assert forall|i: int|
                                    0 <= i < self.animation_steps@.len() implies {
                                    &&& (#[trigger] self.animation_steps@[i]).wf()
                                    &&& self.animation_steps@[i]@ == kept[frames@.len() + i].1
                                } by {
                                    if i > 0 {
                                        assert(self.animation_steps@[i] == before[i - 1]);
                                    }
                                }
                            }
                        },
                        None => {},
                    }
                }
                proof {
                    assert forall|i: int| 0 <= i < self.animation_steps@.len() implies {
                        &&& (#[trigger] self.animation_steps@[i]).wf()
                        &&& self.animation_steps@[i]@.same_topology(self.maze@)
                    } by {
                        assert(self.animation_steps@[i]@ == kept[i].1);
                    }
                    assert(self.animation_steps@[self.animation_steps@.len() - 1]@
                        == kept[kept.len()
                        - 1].1);
                    assert(self.animation_steps@.map_values(|maze: Maze| maze@)
                        =~= kept.map_values(|frame: Frame| frame.1));
                }
            },
            None => {},
        }
        self.pathfinding_state = PathfindingState::Finished;
    }

    /// One tick of the replay: while it runs, shows the next snapshot, and
    /// stops once none is left.
    pub fn tick(&mut self)
        requires
            old(self).wf(),
        ensures
            final(self).wf(),
            final(self).selected_algorithm == old(self).selected_algorithm,
            final(self).running == old(self).running,
            final(self).pathfinding_state == old(self).pathfinding_state,
            old(self).animation_state == AnimationState::Running && old(
                self,
            ).animation_steps@.len() > 0 ==> {
                &&& final(self).maze == old(self).animation_steps@[0]
                &&& final(self).animation_steps@ == old(self).animation_steps@.drop_first()
                &&& final(self).animation_state == AnimationState::Running
            },
            old(self).animation_state == AnimationState::Running && old(
                self,
            ).animation_steps@.len() == 0 ==> {
                &&& final(self).maze == old(self).maze
                &&& final(self).animation_steps@ == old(self).animation_steps@
                &&& final(self).animation_state == AnimationState::NotRunning
            },
            old(self).animation_state != AnimationState::Running ==> {
                &&& final(self).maze == old(self).maze
                &&& final(self).animation_steps@ == old(self).animation_steps@
                &&& final(self).animation_state == old(self).animation_state
            },
    {
        if self.animation_state == AnimationState::Running {
            let ghost steps = self.animation_steps@;
            match self.animation_steps.pop_front() {
                Some(next) => {
                    proof {
                        assert(steps[0].wf());
                        assert(self.animation_steps@ =~= steps.drop_first());
                        assert forall|i: int| 0 <= i < self.animation_steps@.len() implies {
                            &&& (#[trigger] self.animation_steps@[i]).wf()
                            &&& self.animation_steps@[i]@.same_topology(next@)
                        } by {
                            assert(self.animation_steps@[i] == steps[i + 1]);
                            steps[i + 1]@.lemma_same_topology_transitive(self.maze@, next@);
                            self.maze@.lemma_same_topology_symmetric(next@);
                        }
                    }
                    self.maze = next;
                },
                None => {
                    self.animation_state = AnimationState::NotRunning;
                },
            }
        }
    }

    /// Selects the algorithm after the selected one.
    pub fn select_next_algorithm(&mut self)
        ensures
            final(self).selected_algorithm.ordinal() == (old(self).selected_algorithm.ordinal()
                + 1) % 7,
            final(self).maze == old(self).maze,
            final(self).animation_steps == old(self).animation_steps,
            final(self).running == old(self).running,
            final(self).pathfinding_state == old(self).pathfinding_state,
            final(self).animation_state == old(self).animation_state,
    {
        self.selected_algorithm = self.selected_algorithm.next_cycle();
    }

    /// Selects the algorithm before the selected one.
    pub fn select_previous_algorithm(&mut self)
        ensures
            final(self).selected_algorithm.ordinal() == (old(self).selected_algorithm.ordinal()
                + 6) % 7,
            final(self).maze == old(self).maze,
            final(self).animation_steps == old(self).animation_steps,
            final(self).running == old(self).running,
            final(self).pathfinding_state == old(self).pathfinding_state,
            final(self).animation_state == old(self).animation_state,
    {
        self.selected_algorithm = self.selected_algorithm.previous_cycle();
    }

    /// Pauses a running replay and resumes a paused one.
    pub fn pause_unpause_animation(&mut self)
        ensures
            final(self).animation_state == match old(self).animation_state {
                AnimationState::NotRunning => AnimationState::NotRunning,
                AnimationState::Paused => AnimationState::Running,
                AnimationState::Running => AnimationState::Paused,
            },
            final(self).maze == old(self).maze,
            final(self).selected_algorithm == old(self).selected_algorithm,
            final(self).animation_steps == old(self).animation_steps,
            final(self).running == old(self).running,
            final(self).pathfinding_state == old(self).pathfinding_state,
    {
        match self.animation_state {
            AnimationState::NotRunning => {},
            AnimationState::Paused => {
                self.animation_state = AnimationState::Running;
            },
            AnimationState::Running => {
                self.animation_state = AnimationState::Paused;
            },
        }
    }
}

} // verus!
