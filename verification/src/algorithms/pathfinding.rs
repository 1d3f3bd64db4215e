use std::sync::mpsc::Sender;
use vstd::prelude::*;
use super::algorithm::Algorithm;
use super::point::Point;
use crate::maze::{Maze, MazeView};
use crate::maze_cell::{CellType, MazeCell};

verus! {

/// Counters that a search keeps while it runs.
#[derive(Debug, Clone, Copy, PartialEq, Eq, Structural)]
pub struct PathfindingStats {
    /// How many cells the search has visited.
    pub steps: usize,
}

impl Default for PathfindingStats {
    fn default() -> (stats: Self)
        ensures
            stats.steps == 0,
    {
        PathfindingStats { steps: 0 }
    }
}

impl PathfindingStats {
    /// Counts one more visited cell.
    pub fn new_step(&mut self)
        requires
            old(self).steps < usize::MAX,
        ensures
            final(self).steps == old(self).steps + 1,
    {
        self.steps += 1;
    }
}

/// Whether a search is in flight. Kept by the consumer of the snapshots.
#[derive(Debug, Clone, Copy, PartialEq, Eq, Structural)]
pub enum PathfindingState {
    NotStarted,
    Running,
    Finished,
}

impl Default for PathfindingState {
    fn default() -> (s: Self)
        ensures
            s == PathfindingState::NotStarted,
    {
        PathfindingState::NotStarted
    }
}

/// Whether recorded snapshots are being replayed. Kept by the consumer of
/// the snapshots.
#[derive(Debug, Clone, Copy, PartialEq, Eq, Structural)]
pub enum PathfindingAnimationState {
    NotRunning,
    Running,
    Paused,
}

impl Default for PathfindingAnimationState {
    fn default() -> (s: Self)
        ensures
            s == PathfindingAnimationState::NotRunning,
    {
        PathfindingAnimationState::NotRunning
    }
}

/// One snapshot of a running algorithm: a full copy of the maze and the
/// counters at that moment, where the algorithm keeps any.
pub struct PathfindingResult {
    pub stats: Option<PathfindingStats>,
    pub maze: Maze,
}

/// What a snapshot holds.
pub type Frame = (Option<PathfindingStats>, MazeView);

/// `std::sync::mpsc::Sender`, the sending half of a channel. Nothing is
/// known of what it holds.
#[verifier::external_type_specification]
#[verifier::external_body]
#[verifier::reject_recursive_types(T)]
pub struct ExSender<T>(Sender<T>);

/// Calls `Sender::send` and says whether the frame was taken. Nothing is
/// claimed of the answer: it is `false` once the receiving half is gone.
#[verifier::external_body]
fn forward(sender: &Sender<PathfindingResult>, frame: PathfindingResult) -> (delivered: bool) {
    sender.send(frame).is_ok()
}

/// Where an algorithm puts its snapshots, in the order in which it makes
/// them. A sink keeps them, or passes them on through a channel while the
/// other end listens, or drops them. Its view is the sequence of all
/// frames that it was sent.
pub struct SnapshotSink {
    /// Whether the sink keeps the frames.
    pub recording: bool,
    /// The frames that were kept.
    pub frames: Vec<PathfindingResult>,
    /// The channel through which the frames are passed on, if any.
    pub live: Option<Sender<PathfindingResult>>,
    /// Every frame that the sink was sent.
    pub sent: Ghost<Seq<Frame>>,
}

impl View for SnapshotSink {
    type V = Seq<Frame>;

    open spec fn view(&self) -> Seq<Frame> {
        self.sent@
    }
}

/// Between `before` and `after` nothing changed but tags: the topology and
/// snapshot are the same, and a cell that changed carries `Visited` or
/// `FinalPath`.
pub open spec fn marks_only(before: MazeView, after: MazeView) -> bool {
    &&& after.same_topology(before)
    &&& forall|p: Point|
        after.in_bounds(p) ==> (#[trigger] after.cell(p)) == before.cell(p) || after.cell(
            p,
        ).is_search_mark()
}

/// Nothing has changed in the maze itself.
pub proof fn lemma_marks_only_reflexive(m: MazeView)
    ensures
        marks_only(m, m),
{
}

/// Giving a cell that can take it a tag of a search changes nothing but
/// tags.
pub proof fn lemma_marks_only_tag(base: MazeView, now: MazeView, p: Point, tag: CellType)
    requires
        now.wf(),
        now.in_bounds(p),
        now.markable(p),
        marks_only(base, now),
        tag == CellType::Visited || tag == CellType::FinalPath,
    ensures
        marks_only(base, now.marked(p, tag)),
{
    let after = now.marked(p, tag);
    now.lemma_marked(p, tag);
    after.lemma_same_topology_transitive(now, base);
    assert forall|q: Point| after.in_bounds(q) implies (#[trigger] after.cell(q)) == base.cell(q)
        || after.cell(q).is_search_mark() by {
        if q != p {
            assert(after.cell(q) == now.cell(q));
        }
    }
}

/// Whether `b` is `a` with the tag of one cell replaced by a tag of a
/// search.
#[verifier::opaque]
pub open spec fn one_tag_apart(a: MazeView, b: MazeView) -> bool {
    exists|p: Point, tag: CellType|
        #![trigger a.marked(p, tag)]
        a.in_bounds(p) && (tag == CellType::Visited || tag == CellType::FinalPath) && b
            == a.marked(p, tag)
}

/// Whether `frame` shows the maze `base` with nothing changed but tags of
/// a search.
#[verifier::opaque]
pub open spec fn shows_search_of(frame: Frame, base: MazeView) -> bool {
    marks_only(base, frame.1)
}

/// Whether `frames` begins with `before` and the later frames retrace a
/// search of the maze `base` one tag at a time: the first of them shows
/// `base` with one tag of the search, and each further one shows the maze
/// of the frame before it with one more.
#[verifier::opaque]
pub open spec fn frames_extend(before: Seq<Frame>, frames: Seq<Frame>, base: MazeView) -> bool {
    &&& before.len() <= frames.len()
    &&& frames.subrange(0, before.len() as int) == before
    &&& forall|i: int|
        before.len() <= i < frames.len() ==> shows_search_of(#[trigger] frames[i], base)
    &&& forall|i: int|
        before.len() <= i < frames.len() ==> one_tag_apart(
            if i == before.len() {
                base
            } else {
                frames[i - 1].1
            },
            (#[trigger] frames[i]).1,
        )
}

/// Whether the frames that were added to `before` end with a frame that
/// shows `now`; where none was added, `now` is the maze `base` itself.
pub open spec fn frames_up_to_date(
    before: Seq<Frame>,
    frames: Seq<Frame>,
    base: MazeView,
    now: MazeView,
) -> bool {
    if frames.len() <= before.len() {
        now == base
    } else {
        frames.last().1 == now
    }
}

/// Whether `frames` begins with `before`.
pub open spec fn frames_grow(before: Seq<Frame>, frames: Seq<Frame>) -> bool {
    &&& before.len() <= frames.len()
    &&& frames.subrange(0, before.len() as int) == before
}

impl SnapshotSink {
    /// What the kept frames hold.
    pub open spec fn kept(&self) -> Seq<Frame> {
        self.frames@.map_values(|r: PathfindingResult| (r.stats, r.maze@))
    }

    /// A sink that keeps frames has kept every frame that it was sent.
    pub open spec fn wf(&self) -> bool {
        self.recording ==> self.kept() == self@
    }

    /// Whether `self` is `before` after it was sent more frames: it keeps
    /// frames if `before` did, and has kept every frame if `before` had.
    pub open spec fn follows(&self, before: &SnapshotSink) -> bool {
        &&& self.recording == before.recording
        &&& before.wf() ==> self.wf()
    }

    /// Whether the sink was sent a frame and the last one shows `maze`.
    pub open spec fn shows(&self, maze: &Maze) -> bool {
        self@.len() > 0 && self@.last().1 == maze@
    }

    /// What the sink had been sent before stays, and what was added
    /// retraces a search of the maze `base` one tag at a time.
    pub open spec fn extends(&self, before: &SnapshotSink, base: MazeView) -> bool {
        &&& self.follows(before)
        &&& frames_extend(before@, self@, base)
    }

    /// An empty sink that keeps the frames.
    pub fn new() -> (sink: Self)
        ensures
            sink.recording,
            sink.wf(),
            sink@.len() == 0,
            sink.live is None,
    {
        let sink = SnapshotSink {
            recording: true,
            frames: Vec::new(),
            live: None,
            sent: Ghost(Seq::<Frame>::empty()),
        };
        assert(sink.kept() =~= sink@);
        sink
    }

    /// A sink that drops whatever it is sent.
    pub fn disabled() -> (sink: Self)
        ensures
            !sink.recording,
            sink.wf(),
            sink@.len() == 0,
            sink.live is None,
    {
        SnapshotSink {
            recording: false,
            frames: Vec::new(),
            live: None,
            sent: Ghost(Seq::<Frame>::empty()),
        }
    }

    /// A sink that passes every frame on through `sender`, until the other
    /// end of the channel is gone.
    pub fn live(sender: Sender<PathfindingResult>) -> (sink: Self)
        ensures
            !sink.recording,
            sink.wf(),
            sink@.len() == 0,
            sink.live == Some(sender),
    {
        SnapshotSink {
            recording: false,
            frames: Vec::new(),
            live: Some(sender),
            sent: Ghost(Seq::<Frame>::empty()),
        }
    }

    /// A frame: a copy of `maze` with `stats`.
    pub fn frame_of(maze: &Maze, stats: Option<PathfindingStats>) -> (frame: PathfindingResult)
        ensures
            frame.stats == stats,
            frame.maze@ == maze@,
            frame.maze.wf() == maze.wf(),
    {
        PathfindingResult { stats, maze: maze.clone() }
    }

    /// What becomes of the channel once a frame was handed to it: it stays
    /// where the frame was taken, and is given up where it was not, so that
    /// no further frame is passed on. Nothing else changes.
    pub fn after_delivery(&mut self, delivered: bool)
        ensures
            final(self).live == (if delivered {
                old(self).live
            } else {
                None
            }),
            final(self).recording == old(self).recording,
            final(self).frames == old(self).frames,
            final(self)@ == old(self)@,
            final(self).follows(old(self)),
    {
        if !delivered {
            self.live = None;
        }
    }

    /// Takes a frame: a copy of `maze` with `stats`. Keeps it, passes it
    /// on, or drops it. Once a frame could not be passed on, no further
    /// frame is.
    pub fn send(&mut self, maze: &Maze, stats: Option<PathfindingStats>)
        ensures
            final(self).follows(old(self)),
            final(self)@ == old(self)@.push((stats, maze@)),
            final(self).kept() == if old(self).recording {
                old(self).kept().push((stats, maze@))
            } else {
                old(self).kept()
            },
            old(self).live is None ==> final(self).live is None,
            final(self).live is Some ==> final(self).live == old(self).live,
    {
        proof {
            self.sent@ = self.sent@.push((stats, maze@));
        }
        if self.recording {
            self.frames.push(Self::frame_of(maze, stats));
            assert(self.kept() =~= old(self).kept().push((stats, maze@)));
        }
        let delivered = match &self.live {
            Some(sender) => forward(sender, Self::frame_of(maze, stats)),
            None => true,
        };
        self.after_delivery(delivered);
    }

    /// Takes a frame without counters. What the sink had been sent before
    /// stays.
    pub(crate) fn record(&mut self, maze: &Maze, Ghost(before): Ghost<Seq<Frame>>)
        requires
            frames_grow(before, old(self)@),
        ensures
            final(self).follows(old(self)),
            frames_grow(before, final(self)@),
            final(self)@ == old(self)@.push((None, maze@)),
    {
        self.send(maze, None);
        assert(self@.subrange(0, before.len() as int) =~= old(self)@.subrange(
            0,
            before.len() as int,
        ));
    }

    /// How many frames the sink has kept.
    pub fn len(&self) -> (n: usize)
        ensures
            n == self.kept().len(),
            self.wf() && self.recording ==> n == self@.len(),
    {
        self.frames.len()
    }
}

/// Frames extend themselves.
pub proof fn lemma_frames_extend_start(frames: Seq<Frame>, base: MazeView)
    ensures
        frames_extend(frames, frames, base),
{
    reveal(frames_extend);
    assert(frames.subrange(0, frames.len() as int) =~= frames);
}

/// What frames that extend others are: they begin with those, and each
/// frame that was added shows the maze with nothing changed but tags of a
/// search.
pub proof fn lemma_frames_extend_facts(before: Seq<Frame>, frames: Seq<Frame>, base: MazeView)
    requires
        frames_extend(before, frames, base),
    ensures
        frames_grow(before, frames),
        forall|i: int|
            before.len() <= i < frames.len() ==> marks_only(base, (#[trigger] frames[i]).1),
        forall|i: int|
            before.len() < i < frames.len() ==> one_tag_apart(
                frames[i - 1].1,
                (#[trigger] frames[i]).1,
            ),
        before.len() < frames.len() ==> one_tag_apart(base, frames[before.len() as int].1),
{
    reveal(frames_extend);
    assert forall|i: int| before.len() <= i < frames.len() implies marks_only(
        base,
        (#[trigger] frames[i]).1,
    ) by {
        assert(shows_search_of(frames[i], base));
        reveal(shows_search_of);
    }
}

/// Sending one more frame that shows the maze of the last frame with one
/// more tag keeps the frames an extension of `before`.
pub proof fn lemma_frames_extend_push(
    before: Seq<Frame>,
    frames: Seq<Frame>,
    base: MazeView,
    frame: Frame,
)
    requires
        frames_extend(before, frames, base),
        marks_only(base, frame.1),
        one_tag_apart(
            if frames.len() == before.len() {
                base
            } else {
                frames.last().1
            },
            frame.1,
        ),
    ensures
        frames_extend(before, frames.push(frame), base),
{
    reveal(frames_extend);
    let longer = frames.push(frame);
    assert(shows_search_of(frame, base)) by {
        reveal(shows_search_of);
    }
    assert forall|i: int| before.len() <= i < longer.len() implies shows_search_of(
        #[trigger] longer[i],
        base,
    ) by {
        if i < frames.len() {
            assert(longer[i] == frames[i]);
        }
    }
    assert forall|i: int| before.len() <= i < longer.len() implies one_tag_apart(
        if i == before.len() {
            base
        } else {
            longer[i - 1].1
        },
        (#[trigger] longer[i]).1,
    ) by {
        if i < frames.len() {
            assert(longer[i] == frames[i]);
        }
    }
    assert(frames.push(frame).subrange(0, before.len() as int) =~= frames.subrange(
        0,
        before.len() as int,
    ));
}

/// Whether the cells tagged `FinalPath` in `after` are exactly those of
/// `path`, a chain of moves without repetition from `from` to `to` in
/// `before`.
pub open spec fn route_marked(
    before: MazeView,
    after: MazeView,
    path: Seq<Point>,
    from: Point,
    to: Point,
) -> bool {
    &&& before.walk_between(path, from, to)
    &&& path.no_duplicates()
    &&& forall|p: Point|
        after.in_bounds(p) ==> ((#[trigger] after.cell(p)).cell_type == CellType::FinalPath
            <==> path.contains(p))
}

/// The cells tagged `FinalPath` are as many as the route that they show is
/// long.
pub proof fn lemma_route_cells(
    before: MazeView,
    after: MazeView,
    path: Seq<Point>,
    from: Point,
    to: Point,
)
    requires
        before.wf(),
        after.same_topology(before),
        route_marked(before, after, path, from, to),
    ensures
        after.final_path_cells().finite(),
        after.final_path_cells().len() == path.len(),
{
    assert(after.final_path_cells() =~= path.to_set()) by {
        assert forall|p: Point| after.final_path_cells().contains(p) <==> path.to_set().contains(
            p,
        ) by {
            if path.contains(p) {
                let i = choose|i: int| 0 <= i < path.len() && path[i] == p;
                before.lemma_walk_in_bounds(path, i);
            }
        }
    }
    path.unique_seq_to_set();
}

/// Where no cell is tagged `FinalPath`, the set of the cells so tagged is
/// empty.
pub proof fn lemma_no_route_cells(after: MazeView)
    requires
        no_route_marked(after),
    ensures
        after.final_path_cells() == Set::<Point>::empty(),
        after.final_path_cells().finite(),
        after.final_path_cells().len() == 0,
{
    assert(after.final_path_cells() =~= Set::<Point>::empty());
}

/// Whether no cell of `after` is tagged `FinalPath`.
pub open spec fn no_route_marked(after: MazeView) -> bool {
    forall|p: Point|
        after.in_bounds(p) ==> (#[trigger] after.cell(p)).cell_type != CellType::FinalPath
}

/// Whether `after` shows some route from `from` to `to`.
pub open spec fn shows_route(before: MazeView, after: MazeView, from: Point, to: Point) -> bool {
    exists|path: Seq<Point>| route_marked(before, after, path, from, to)
}

/// Whether `after` shows a shortest route from `from` to `to`.
pub open spec fn shows_shortest_route(
    before: MazeView,
    after: MazeView,
    from: Point,
    to: Point,
) -> bool {
    exists|path: Seq<Point>|
        route_marked(before, after, path, from, to) && before.shortest_between(path, from, to)
}

/// What every search leaves behind. The maze keeps its topology and
/// snapshot and only gains `Visited` and `FinalPath` tags. Either no cell
/// is tagged `FinalPath`, or the cells so tagged form a chain of moves
/// without repetition from the entrance to the exit.
pub open spec fn search_result(before: MazeView, after: MazeView) -> bool {
    &&& marks_only(before, after)
    &&& before.entrance() is Some
    &&& before.exit() is Some
    &&& no_route_marked(after) || shows_route(
        before,
        after,
        before.entrance()->0,
        before.exit()->0,
    )
}

/// The tag and walls of `p` once the search has expanded the cells of
/// `expanded` in the maze `m`.
pub open spec fn visited_cell(m: MazeView, expanded: Set<Point>, p: Point) -> MazeCell {
    if expanded.contains(p) {
        MazeCell { cell_type: CellType::Visited, walls: m.cell(p).walls }
    } else {
        m.cell(p)
    }
}

/// What a search that finds shortest routes leaves behind, beyond what
/// every search does. Where the exit can be reached, the cells tagged
/// `FinalPath` are those of a shortest route from the entrance to the exit.
/// Where it cannot, no cell is tagged `FinalPath` and the cells tagged
/// `Visited` are those that can be reached from the entrance. In both cases
/// only cells that can be reached from the entrance have changed.
pub open spec fn shortest_search_result(before: MazeView, after: MazeView) -> bool {
    let entrance = before.entrance()->0;
    let exit = before.exit()->0;
    &&& search_result(before, after)
    &&& before.reachable(entrance, exit) ==> shows_shortest_route(before, after, entrance, exit)
    &&& !before.reachable(entrance, exit) ==> {
        &&& no_route_marked(after)
        &&& forall|p: Point|
            after.in_bounds(p) ==> ((#[trigger] after.cell(p)).cell_type == CellType::Visited
                <==> before.reachable(entrance, p))
    }
    &&& forall|p: Point|
        after.in_bounds(p) && #[trigger] after.cell(p) != before.cell(p) ==> before.reachable(
            entrance,
            p,
        )
}

/// A shortest search result is a complete one.
pub proof fn lemma_shortest_is_complete(before: MazeView, after: MazeView)
    requires
        shortest_search_result(before, after),
    ensures
        complete_search_result(before, after),
{
    let entrance = before.entrance()->0;
    let exit = before.exit()->0;
    if before.reachable(entrance, exit) {
        let path = choose|path: Seq<Point>|
            route_marked(before, after, path, entrance, exit) && before.shortest_between(
                path,
                entrance,
                exit,
            );
        assert(route_marked(before, after, path, entrance, exit));
    }
}

/// What a search leaves behind that gives up only where there is no route.
/// Where the exit can be reached, the cells tagged `FinalPath` form a chain
/// of moves without repetition from the entrance to the exit. Where it
/// cannot, no cell is tagged `FinalPath` and the cells tagged `Visited` are
/// those that can be reached from the entrance. In both cases only cells
/// that can be reached from the entrance have changed.
pub open spec fn complete_search_result(before: MazeView, after: MazeView) -> bool {
    let entrance = before.entrance()->0;
    let exit = before.exit()->0;
    &&& search_result(before, after)
    &&& before.reachable(entrance, exit) ==> shows_route(before, after, entrance, exit)
    &&& !before.reachable(entrance, exit) ==> {
        &&& no_route_marked(after)
        &&& forall|p: Point|
            after.in_bounds(p) ==> ((#[trigger] after.cell(p)).cell_type == CellType::Visited
                <==> before.reachable(entrance, p))
    }
    &&& forall|p: Point|
        after.in_bounds(p) && #[trigger] after.cell(p) != before.cell(p) ==> before.reachable(
            entrance,
            p,
        )
}

/// The cells that carry a tag of a search.
pub open spec fn marked_cells(m: MazeView) -> Set<Point> {
    Set::new(|p: Point| m.in_bounds(p) && m.cell(p).is_search_mark())
}

/// `steps` plus `more`, or the largest count where the sum does not fit.
pub open spec fn steps_after(steps: usize, more: nat) -> usize {
    if steps + more <= usize::MAX {
        (steps + more) as usize
    } else {
        usize::MAX
    }
}

/// What a search needs: a well-formed maze that was reset, so that no cell
/// carries a tag of an earlier search, with an entrance and an exit in its
/// snapshot.
pub open spec fn searchable(maze: &Maze) -> bool {
    &&& maze.wf()
    &&& maze@.cells == maze@.original
    &&& maze@.unmarked()
    &&& maze@.entrance() is Some
    &&& maze@.exit() is Some
}

/// A search for a path from the entrance of a maze to its exit.
pub trait PathfindingAlgorithm {
    /// Searches `maze`, tagging the cells it visits, and sends a snapshot
    /// of the maze to `sink` after each tag it sets.
    fn find_path(&mut self, maze: &mut Maze, sink: &mut SnapshotSink)
        requires
            searchable(old(maze)),
        ensures
            final(maze).wf(),
            final(maze).width == old(maze).width,
            final(maze).height == old(maze).height,
            final(maze).maze_type == old(maze).maze_type,
            complete_search_result(old(maze)@, final(maze)@),
            final(sink).extends(old(sink), old(maze)@),
            final(sink)@.len() > old(sink)@.len(),
            final(sink).shows(final(maze)),
    ;

    /// The counters of the search, where it keeps any.
    fn get_stats(&self) -> Option<PathfindingStats>;

    /// Which algorithm this is.
    fn name(&self) -> Algorithm;
}

} // verus!
