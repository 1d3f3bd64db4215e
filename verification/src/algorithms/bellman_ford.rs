use vstd::prelude::*;
use super::algorithm::Algorithm;
use super::directions::Movements;
use super::grid::{count_false, lemma_count_false_update, Grid};
use super::pathfinding::{
    frames_extend, frames_up_to_date, lemma_frames_extend_start, lemma_marks_only_reflexive,
    lemma_shortest_is_complete, marks_only, searchable, shortest_search_result, visited_cell, Frame,
    PathfindingAlgorithm, PathfindingStats, SnapshotSink,
};
use super::point::Point;
use super::priority_search::lemma_count_false_bound;
use super::search::{
    lemma_route_found, lemma_search_exhausted, lemma_tree_walk, tag_and_show, tag_route, tree_inv,
    tree_walk,
};
use crate::maze::{Maze, MazeView};
use crate::maze_cell::CellType;

verus! {

/// The Bellman-Ford search: relaxes every move of the grid, round after
/// round, and stops after the round in which the distance of the exit has
/// become final: no more rounds were made than it has moves.
pub struct BellmanFord {
    /// Whether the pass after the last round found a move that could still
    /// be relaxed. With moves that all cost 1 there is none.
    pub negative_cycle: bool,
}

impl Default for BellmanFord {
    fn default() -> (search: Self)
        ensures
            !search.negative_cycle,
    {
        BellmanFord { negative_cycle: false }
    }
}

/// What the search knows of each cell: whether it has a distance from the
/// entrance, the distance, and the cell from which it got it.
pub struct Distances {
    pub reached: Grid<bool>,
    pub dist: Grid<usize>,
    pub pred: Grid<Option<Point>>,
}

impl Distances {
    /// The distances of the cells that have one.
    pub open spec fn labels(&self) -> Map<Point, nat> {
        Map::new(
            |p: Point| self.reached.in_bounds(p) && self.reached.at(p),
            |p: Point| self.dist.at(p) as nat,
        )
    }

    /// The three grids have the shape of the maze.
    pub open spec fn fits(&self, m: MazeView) -> bool {
        &&& self.reached.wf()
        &&& self.dist.wf()
        &&& self.pred.wf()
        &&& self.reached.width == m.width
        &&& self.reached.height == m.height
        &&& self.dist.width == m.width
        &&& self.dist.height == m.height
        &&& self.pred.width == m.width
        &&& self.pred.height == m.height
    }

    /// Whether the move from `u` to `w` would lower the distance of `w`.
    pub open spec fn can_relax(&self, u: Point, w: Point) -> bool {
        self.reached.at(u) && (!self.reached.at(w) || self.dist.at(u) + 1 < self.dist.at(w))
    }

    /// Every cell with a distance in `self` has one in `later` that is no
    /// larger.
    pub open spec fn improved_by(&self, later: &Distances) -> bool {
        forall|p: Point|
            self.reached.in_bounds(p) && #[trigger] self.reached.at(p) ==> later.reached.at(p)
                && later.dist.at(p) <= self.dist.at(p)
    }
}

/// What holds of the distances at every moment of the search. The cells
/// with a distance form a tree of predecessors rooted at the entrance, a
/// distance is smaller than the number of cells, and the cells with a
/// distance are those tagged `Visited`.
pub open spec fn relax_inv(m: MazeView, now: MazeView, entrance: Point, d: &Distances) -> bool {
    &&& m.wf()
    &&& now.same_topology(m)
    &&& marks_only(m, now)
    &&& d.fits(m)
    &&& m.markable(entrance)
    &&& tree_inv(m, entrance, d.labels(), d.pred)
    &&& forall|p: Point| #[trigger]
        d.labels().dom().contains(p) ==> d.dist.at(p) + 1 + count_false(d.reached.cells@)
            <= m.width * m.height
    &&& forall|p: Point|
        m.in_bounds(p) ==> #[trigger] now.cell(p) == visited_cell(m, d.labels().dom(), p)
}

/// Every cell that some chain of at most `rounds` moves reaches from the
/// entrance has a distance that is no larger than the length of the chain.
#[verifier::opaque]
pub open spec fn covers(m: MazeView, entrance: Point, d: &Distances, rounds: nat) -> bool {
    forall|p: Point, moves: nat|
        moves <= rounds && #[trigger] m.within(entrance, p, moves)
            ==> d.reached.at(p) && d.dist.at(p)
            <= moves
}

/// Whatever chain of at most `rounds` moves reaches `u`, the cell `w` has a
/// distance that is at most one larger than the length of the chain.
#[verifier::opaque]
pub open spec fn edge_settled(
    m: MazeView,
    entrance: Point,
    d: &Distances,
    rounds: nat,
    u: Point,
    w: Point,
) -> bool {
    forall|moves: nat|
        moves <= rounds && #[trigger] m.within(entrance, u, moves)
            ==> d.reached.at(w) && d.dist.at(w)
            <= moves + 1
}

/// The cells that a row-major scan passes before it comes to `(x, y)`.
pub open spec fn scanned(m: MazeView, y: int, x: int) -> Set<Point> {
    Set::new(|u: Point| m.in_bounds(u) && (u.y < y || (u.y == y && u.x < x)))
}

proof fn lemma_walk_ends_in_bounds(m: MazeView, a: Point, b: Point, moves: nat)
    requires
        m.within(a, b, moves),
    ensures
        m.in_bounds(b),
        m.in_bounds(a),
        moves == 0 ==> a == b,
{
    let path = choose|path: Seq<Point>| #[trigger] m.walk_between(path, a, b)
        && path.len() == moves + 1;
    m.lemma_walk_in_bounds(path, path.len() - 1);
}

proof fn lemma_improved_keeps(
    m: MazeView,
    entrance: Point,
    a: &Distances,
    b: &Distances,
    rounds: nat,
)
    requires
        a.improved_by(b),
        a.fits(m),
        b.fits(m),
    ensures
        covers(m, entrance, a, rounds) ==> covers(m, entrance, b, rounds),
        forall|u: Point, w: Point|
            edge_settled(m, entrance, a, rounds, u, w) && m.in_bounds(w)
                ==> #[trigger] edge_settled(
                m,
                entrance,
                b,
                rounds,
                u,
                w,
            ),
{
    reveal(covers);
    reveal(edge_settled);
    if covers(m, entrance, a, rounds) {
        assert forall|p: Point, moves: nat|
            moves <= rounds && #[trigger] m.within(entrance, p, moves) implies b.reached.at(p)
            && b.dist.at(p) <= moves by {
            lemma_walk_ends_in_bounds(m, entrance, p, moves);
            assert(a.reached.at(p));
        }
    }
    assert forall|u: Point, w: Point|
        edge_settled(m, entrance, a, rounds, u, w) && m.in_bounds(w)
            implies #[trigger] edge_settled(
        m,
        entrance,
        b,
        rounds,
        u,
        w,
    ) by {
        assert forall|moves: nat|
            moves <= rounds && #[trigger] m.within(entrance, u, moves) implies b.reached.at(w)
            && b.dist.at(w) <= moves + 1 by {
            assert(a.reached.at(w));
        }
    }
}

/// Once every move has been relaxed in a round, chains that are one move
/// longer are covered too.
proof fn lemma_round_complete(m: MazeView, entrance: Point, d: &Distances, rounds: nat)
    requires
        covers(m, entrance, d, rounds),
        forall|u: Point, w: Point| #[trigger]
            m.step(u, w) ==> edge_settled(m, entrance, d, rounds, u, w),
    ensures
        covers(m, entrance, d, rounds + 1),
{
    reveal(covers);
    reveal(edge_settled);
    assert forall|p: Point, moves: nat|
        moves <= rounds + 1 && #[trigger] m.within(entrance, p, moves) implies d.reached.at(p)
        && d.dist.at(p) <= moves by {
        if moves == rounds + 1 {
            let path = choose|path: Seq<Point>| #[trigger]
                m.walk_between(path, entrance, p) && path.len() == moves + 1;
            let u = path[path.len() - 2];
            assert(m.step(path[path.len() - 2], path[path.len() - 2 + 1]));
            let prefix = path.subrange(0, path.len() - 1);
            m.lemma_walk_prefix(path, path.len() - 1);
            assert(m.walk_between(prefix, entrance, u));
            assert(m.within(entrance, u, rounds));
            assert(edge_settled(m, entrance, d, rounds, u, p));
        }
    }
}

/// After one round fewer than there are cells no move can be relaxed any
/// more.
#[verifier::rlimit(40)]
proof fn lemma_converged(m: MazeView, now: MazeView, entrance: Point, d: &Distances, rounds: nat)
    requires
        relax_inv(m, now, entrance, d),
        covers(m, entrance, d, rounds),
        rounds + 1 >= m.width * m.height,
    ensures
        m.settled_except(d.labels(), Set::<Point>::empty()),
        forall|u: Point, w: Point| #[trigger] m.step(u, w) ==> !d.can_relax(u, w),
{
    reveal(covers);
    let label = d.labels();
    assert forall|u: Point, w: Point| #[trigger] m.step(u, w)
        && label.dom().contains(u) implies label.dom().contains(
        w,
    ) && label[w] <= label[u] + 1 by {
        let chain = tree_walk(entrance, label, d.pred, u);
        lemma_tree_walk(m, entrance, label, d.pred, u);
        assert forall|i: int| 0 <= i < chain.len() implies m.in_bounds(#[trigger] chain[i]) by {
            m.lemma_walk_in_bounds(chain, i);
        }
        m.lemma_distinct_cells_bounded(chain);
        if chain.contains(w) {
            let j = choose|j: int| 0 <= j < chain.len() && chain[j] == w;
            let prefix = chain.subrange(0, j + 1);
            m.lemma_walk_prefix(chain, j + 1);
            assert(m.walk_between(prefix, entrance, w));
            assert(m.within(entrance, w, j as nat));
        } else {
            let longer = chain.push(w);
            m.lemma_walk_push(chain, w);
            assert(longer.no_duplicates()) by {
                assert forall|i: int, j: int|
                    0 <= i < longer.len() && 0 <= j < longer.len() && i != j implies longer[i]
                    != longer[j] by {
                    if i < chain.len() {
                        assert(chain.contains(chain[i]));
                    }
                    if j < chain.len() {
                        assert(chain.contains(chain[j]));
                    }
                }
            }
            assert forall|i: int| 0 <= i < longer.len()
                implies m.in_bounds(#[trigger] longer[i]) by {
                if i < chain.len() {
                    assert(longer[i] == chain[i]);
                }
            }
            m.lemma_distinct_cells_bounded(longer);
            assert(m.walk_between(longer, entrance, w));
            assert(m.within(entrance, w, chain.len() as nat));
        }
    }
    assert forall|u: Point, w: Point| #[trigger] m.step(u, w) implies !d.can_relax(u, w) by {
        if d.reached.at(u) {
            assert(label.dom().contains(u));
        }
    }
}

/// Once chains of as many moves as the distance of a cell are covered, no
/// chain of moves to the cell is shorter than its distance.
proof fn lemma_distance_final(m: MazeView, entrance: Point, p: Point, d: &Distances, rounds: nat)
    requires
        covers(m, entrance, d, rounds),
        d.reached.at(p),
        d.dist.at(p) <= rounds,
    ensures
        forall|other: Seq<Point>| #[trigger]
            m.walk_between(other, entrance, p) ==> d.dist.at(p) + 1 <= other.len(),
{
    reveal(covers);
    let least = d.dist.at(p);
    assert forall|other: Seq<Point>| #[trigger] m.walk_between(other, entrance, p) implies least
        + 1 <= other.len() by {
        let moves = (other.len() - 1) as nat;
        if moves < d.dist.at(p) {
            assert(m.within(entrance, p, moves));
        }
    }
}

impl BellmanFord {
    /// A search that has found nothing to relax.
    pub fn new() -> (search: Self)
        ensures
            !search.negative_cycle,
    {
        BellmanFord { negative_cycle: false }
    }

    /// Relaxes the move from `current` to `neighbor`: where it gives
    /// `neighbor` its first or a smaller distance, records the distance and
    /// the predecessor, tags `neighbor` `Visited` and sends a snapshot.
    #[verifier::rlimit(40)]
    fn relax_edges(
        current: Point,
        neighbor: Point,
        maze: &mut Maze,
        d: &mut Distances,
        sink: &mut SnapshotSink,
        Ghost(m): Ghost<MazeView>,
        Ghost(entrance): Ghost<Point>,
        Ghost(frames0): Ghost<Seq<Frame>>,
    ) -> (relaxed: bool)
        requires
            old(maze).wf(),
            relax_inv(m, old(maze)@, entrance, old(d)),
            m.step(current, neighbor),
            frames_extend(frames0, old(sink)@, m),
            frames_up_to_date(frames0, old(sink)@, m, old(maze)@),
        ensures
            final(maze).wf(),
            final(maze).width == old(maze).width,
            final(maze).height == old(maze).height,
            final(maze).maze_type == old(maze).maze_type,
            relax_inv(m, final(maze)@, entrance, final(d)),
            old(d).improved_by(final(d)),
            relaxed == old(d).can_relax(current, neighbor),
            relaxed ==> final(d).reached.at(neighbor),
            !relaxed ==> forall|p: Point|
                m.in_bounds(p) ==> final(d).reached.at(p) == old(d).reached.at(p),
            old(d).reached.at(current)
                ==> final(d).reached.at(neighbor) && final(d).dist.at(neighbor)
                <= final(d).dist.at(current) + 1,
            forall|p: Point|
                m.in_bounds(p) && p != neighbor ==> final(d).reached.at(p) == old(d).reached.at(p),
            final(sink).follows(old(sink)),
            frames_extend(frames0, final(sink)@, m),
            frames_up_to_date(frames0, final(sink)@, m, final(maze)@),
            old(sink).shows(old(maze)) ==> final(sink).shows(final(maze)),
            final(sink)@.len() >= old(sink)@.len(),
    {
        if !d.reached.get(current) {
            return false;
        }
        assert(d.labels().dom().contains(current));
        let tentative = d.dist.get(current) + 1;
        let first = !d.reached.get(neighbor);
        if first || tentative < d.dist.get(neighbor) {
            let ghost before = d.labels();
            let ghost shown = maze@;
            proof {
                d.reached.lemma_index(neighbor);
                if first {
                    lemma_count_false_update(
                        d.reached.cells@,
                        neighbor.y * d.reached.width + neighbor.x,
                    );
                } else {
                    assert(d.labels().dom().contains(neighbor));
                    assert(d.reached.cells@.update(
                        neighbor.y * d.reached.width + neighbor.x,
                        true,
                    ) =~= d.reached.cells@);
                }
                m.lemma_step_markable(current, neighbor);
                assert(shown.cell(neighbor) == visited_cell(m, before.dom(), neighbor));
                assert(neighbor != entrance);
                assert(neighbor != current);
            }
            d.dist.set(neighbor, tentative);
            d.reached.set(neighbor, true);
            d.pred.set(neighbor, Some(current));
            tag_and_show(
                maze,
                sink,
                neighbor,
                CellType::Visited,
                None,
                Ghost(m),
                Ghost(frames0),
            );
            proof {
                let after = d.labels();
                assert forall|p: Point| #[trigger] after.dom().contains(p)
                    implies (before.dom().contains(
                    p,
                ) || p == neighbor) && (p != neighbor ==> after[p] == before[p]) by {}
                assert forall|p: Point| #[trigger] before.dom().contains(p)
                    implies after.dom().contains(
                    p,
                ) && after[p] <= before[p] by {}
                assert(tree_inv(m, entrance, after, d.pred)) by {
                    assert forall|p: Point| after.dom().contains(p) && p != entrance implies {
                        &&& (#[trigger] d.pred.at(p)) is Some
                        &&& after.dom().contains(d.pred.at(p)->0)
                        &&& after[d.pred.at(p)->0] < after[p]
                        &&& m.step(d.pred.at(p)->0, p)
                    } by {
                        if p != neighbor {
                            assert(before.dom().contains(p));
                            assert(d.pred.at(p) == old(d).pred.at(p));
                            assert(before.dom().contains(old(d).pred.at(p)->0));
                        }
                    }
                }
                assert forall|p: Point| m.in_bounds(p) implies #[trigger] maze@.cell(p)
                    == visited_cell(m, after.dom(), p) by {
                    if p != neighbor {
                        assert(shown.cell(p) == visited_cell(m, before.dom(), p));
                    }
                }
            }
            true
        } else {
            false
        }
    }

    /// Relaxes the moves out of `current` in turn.
    #[verifier::rlimit(40)]
    fn scan_cell(
        current: Point,
        maze: &mut Maze,
        d: &mut Distances,
        sink: &mut SnapshotSink,
        Ghost(m): Ghost<MazeView>,
        Ghost(entrance): Ghost<Point>,
        Ghost(frames0): Ghost<Seq<Frame>>,
        Ghost(rounds): Ghost<nat>,
        Ghost(done): Ghost<Set<Point>>,
    )
        requires
            old(maze).wf(),
            relax_inv(m, old(maze)@, entrance, old(d)),
            m.in_bounds(current),
            covers(m, entrance, old(d), rounds),
            forall|u: Point, w: Point|
                done.contains(u) && #[trigger] m.step(u, w) ==> edge_settled(
                    m,
                    entrance,
                    old(d),
                    rounds,
                    u,
                    w,
                ),
            frames_extend(frames0, old(sink)@, m),
            frames_up_to_date(frames0, old(sink)@, m, old(maze)@),
        ensures
            final(maze).wf(),
            final(maze).width == old(maze).width,
            final(maze).height == old(maze).height,
            final(maze).maze_type == old(maze).maze_type,
            relax_inv(m, final(maze)@, entrance, final(d)),
            covers(m, entrance, final(d), rounds),
            forall|u: Point, w: Point|
                (done.contains(u) || u == current) && #[trigger] m.step(u, w) ==> edge_settled(
                    m,
                    entrance,
                    final(d),
                    rounds,
                    u,
                    w,
                ),
            final(sink).follows(old(sink)),
            frames_extend(frames0, final(sink)@, m),
            frames_up_to_date(frames0, final(sink)@, m, final(maze)@),
            old(sink).shows(old(maze)) ==> final(sink).shows(final(maze)),
            final(sink)@.len() >= old(sink)@.len(),
    {
        let dirs = Movements::direction_list();
        proof {
            m.lemma_same_topology_step_all(maze@, current);
        }
        let neighbors = maze.open_neighbors(current, &dirs);
        let mut i: usize = 0;
        while i < neighbors.len()
            invariant
                i <= neighbors.len(),
                maze.wf(),
                maze.width == old(maze).width,
                maze.height == old(maze).height,
                maze.maze_type == old(maze).maze_type,
                relax_inv(m, maze@, entrance, d),
                m.in_bounds(current),
                covers(m, entrance, d, rounds),
                forall|k: int| 0 <= k < neighbors.len()
                    ==> m.step(current, #[trigger] neighbors[k]),
                forall|w: Point| #[trigger] m.step(current, w) ==> neighbors@.contains(w),
                forall|u: Point, w: Point|
                    done.contains(u) && #[trigger] m.step(u, w) ==> edge_settled(
                        m,
                        entrance,
                        d,
                        rounds,
                        u,
                        w,
                    ),
                forall|k: int|
                    0 <= k < i ==> edge_settled(m, entrance, d, rounds, current,
                        #[trigger] neighbors[k]),
                sink.follows(old(sink)),
                frames_extend(frames0, sink@, m),
                frames_up_to_date(frames0, sink@, m, maze@),
                old(sink).shows(old(maze)) ==> sink.shows(maze),
                sink@.len() >= old(sink)@.len(),
            decreases neighbors.len() - i,
        {
            let next = neighbors[i];
            assert(m.step(current, neighbors[i as int]));
            let ghost earlier = *d;
            Self::relax_edges(
                current,
                next,
                maze,
                d,
                sink,
                Ghost(m),
                Ghost(entrance),
                Ghost(frames0),
            );
            proof {
                lemma_improved_keeps(m, entrance, &earlier, d, rounds);
                assert forall|u: Point, w: Point|
                    done.contains(u) && #[trigger] m.step(u, w) implies edge_settled(
                    m,
                    entrance,
                    d,
                    rounds,
                    u,
                    w,
                ) by {
                    assert(edge_settled(m, entrance, &earlier, rounds, u, w));
                }
                assert forall|k: int| 0 <= k < i + 1 implies edge_settled(
                    m,
                    entrance,
                    d,
                    rounds,
                    current,
                    #[trigger] neighbors[k],
                ) by {
                    if k < i {
                        assert(edge_settled(m, entrance, &earlier, rounds, current, neighbors[k]));
                        assert(m.step(current, neighbors[k]));
                    } else {
                        reveal(covers);
                        reveal(edge_settled);
                        assert forall|moves: nat|
                            moves <= rounds && #[trigger] m.within(
                                entrance,
                                current,
                                moves,
                            ) implies d.reached.at(next) && d.dist.at(next) <= moves + 1 by {
                            assert(earlier.reached.at(current)
                                && earlier.dist.at(current) <= moves);
                        }
                    }
                }
            }
            i += 1;
        }
        proof {
            assert forall|u: Point, w: Point|
                (done.contains(u) || u == current) && #[trigger] m.step(u, w) implies edge_settled(
                m,
                entrance,
                d,
                rounds,
                u,
                w,
            ) by {
                if !done.contains(u) {
                    assert(neighbors@.contains(w));
                    let k = choose|k: int| 0 <= k < neighbors@.len() && neighbors@[k] == w;
                    assert(edge_settled(m, entrance, d, rounds, current, neighbors[k]));
                }
            }
        }
    }

    /// One round: relaxes the moves out of every cell, in row-major order.
    /// Afterwards chains that are one move longer are covered too.
    #[verifier::rlimit(40)]
    fn scan_round(
        maze: &mut Maze,
        d: &mut Distances,
        sink: &mut SnapshotSink,
        Ghost(m): Ghost<MazeView>,
        Ghost(entrance): Ghost<Point>,
        Ghost(frames0): Ghost<Seq<Frame>>,
        Ghost(rounds): Ghost<nat>,
    )
        requires
            old(maze).wf(),
            old(maze).width == m.width,
            old(maze).height == m.height,
            relax_inv(m, old(maze)@, entrance, old(d)),
            covers(m, entrance, old(d), rounds),
            frames_extend(frames0, old(sink)@, m),
            frames_up_to_date(frames0, old(sink)@, m, old(maze)@),
        ensures
            final(maze).wf(),
            final(maze).width == old(maze).width,
            final(maze).height == old(maze).height,
            final(maze).maze_type == old(maze).maze_type,
            relax_inv(m, final(maze)@, entrance, final(d)),
            covers(m, entrance, final(d), rounds + 1),
            final(sink).follows(old(sink)),
            frames_extend(frames0, final(sink)@, m),
            frames_up_to_date(frames0, final(sink)@, m, final(maze)@),
            old(sink).shows(old(maze)) ==> final(sink).shows(final(maze)),
            final(sink)@.len() >= old(sink)@.len(),
    {
        let mut y: usize = 0;
        while y < maze.height
            invariant
                y <= maze.height,
                maze.wf(),
                maze.width == old(maze).width,
                maze.height == old(maze).height,
                maze.maze_type == old(maze).maze_type,
                maze.width == m.width,
                maze.height == m.height,
                relax_inv(m, maze@, entrance, d),
                covers(m, entrance, d, rounds),
                forall|u: Point, w: Point|
                    scanned(m, y as int, 0).contains(u) && #[trigger] m.step(u, w) ==> edge_settled(
                        m,
                        entrance,
                        d,
                        rounds,
                        u,
                        w,
                    ),
                sink.follows(old(sink)),
                frames_extend(frames0, sink@, m),
                frames_up_to_date(frames0, sink@, m, maze@),
                old(sink).shows(old(maze)) ==> sink.shows(maze),
                sink@.len() >= old(sink)@.len(),
            decreases maze.height - y,
        {
            let mut x: usize = 0;
            while x < maze.width
                invariant
                    y < maze.height,
                    x <= maze.width,
                    maze.wf(),
                    maze.width == old(maze).width,
                    maze.height == old(maze).height,
                    maze.maze_type == old(maze).maze_type,
                    maze.width == m.width,
                    maze.height == m.height,
                    relax_inv(m, maze@, entrance, d),
                    covers(m, entrance, d, rounds),
                    forall|u: Point, w: Point|
                        scanned(m, y as int, x as int).contains(u) && #[trigger] m.step(u, w)
                            ==> edge_settled(m, entrance, d, rounds, u, w),
                    sink.follows(old(sink)),
                    frames_extend(frames0, sink@, m),
                    frames_up_to_date(frames0, sink@, m, maze@),
                    old(sink).shows(old(maze)) ==> sink.shows(maze),
                    sink@.len() >= old(sink)@.len(),
                decreases maze.width - x,
            {
                let current = Point { x, y };
                Self::scan_cell(
                    current,
                    maze,
                    d,
                    sink,
                    Ghost(m),
                    Ghost(entrance),
                    Ghost(frames0),
                    Ghost(rounds),
                    Ghost(scanned(m, y as int, x as int)),
                );
                proof {
                    assert forall|u: Point, w: Point|
                        scanned(m, y as int, x as int + 1).contains(u) && #[trigger] m.step(
                            u,
                            w,
                        ) implies edge_settled(m, entrance, d, rounds, u, w) by {
                        if u != current {
                            assert(scanned(m, y as int, x as int).contains(u));
                        }
                    }
                }
                x += 1;
            }
            proof {
                assert forall|u: Point, w: Point|
                    scanned(m, y as int + 1, 0).contains(u) && #[trigger] m.step(
                        u,
                        w,
                    ) implies edge_settled(m, entrance, d, rounds, u, w) by {
                    assert(scanned(m, y as int, x as int).contains(u));
                }
            }
            y += 1;
        }
        proof {
            assert forall|u: Point, w: Point| #[trigger] m.step(u, w) implies edge_settled(
                m,
                entrance,
                d,
                rounds,
                u,
                w,
            ) by {
                assert(scanned(m, y as int, 0).contains(u));
            }
            lemma_round_complete(m, entrance, d, rounds);
        }
    }

    /// The pass after the last round: whether any move could still be
    /// relaxed.
    fn has_relaxable_edge(maze: &Maze, d: &Distances, Ghost(m): Ghost<MazeView>) -> (any: bool)
        requires
            maze.wf(),
            m.wf(),
            maze@.same_topology(m),
            d.fits(m),
            forall|p: Point| m.in_bounds(p) && #[trigger] d.reached.at(p)
                ==> d.dist.at(p) < usize::MAX,
        ensures
            any == exists|u: Point, w: Point| #[trigger] m.step(u, w) && d.can_relax(u, w),
    {
        let dirs = Movements::direction_list();
        let mut y: usize = 0;
        while y < maze.height
            invariant
                y <= maze.height,
                maze.wf(),
                m.wf(),
                maze@.same_topology(m),
                d.fits(m),
                super::directions::lists_unit_offsets(dirs@),
                forall|p: Point|
                    m.in_bounds(p) && #[trigger] d.reached.at(p) ==> d.dist.at(p) < usize::MAX,
                forall|u: Point, w: Point|
                    scanned(m, y as int, 0).contains(u) && #[trigger] m.step(u, w) ==> !d.can_relax(
                        u,
                        w,
                    ),
            decreases maze.height - y,
        {
            let mut x: usize = 0;
            while x < maze.width
                invariant
                    y < maze.height,
                    x <= maze.width,
                    maze.wf(),
                    m.wf(),
                    maze@.same_topology(m),
                    d.fits(m),
                    super::directions::lists_unit_offsets(dirs@),
                    forall|p: Point|
                        m.in_bounds(p) && #[trigger] d.reached.at(p) ==> d.dist.at(p) < usize::MAX,
                    forall|u: Point, w: Point|
                        scanned(m, y as int, x as int).contains(u) && #[trigger] m.step(u, w)
                            ==> !d.can_relax(u, w),
                decreases maze.width - x,
            {
                let current = Point { x, y };
                proof {
                    m.lemma_same_topology_step_all(maze@, current);
                }
                let neighbors = maze.open_neighbors(current, &dirs);
                let mut i: usize = 0;
                while i < neighbors.len()
                    invariant
                        i <= neighbors.len(),
                        m.in_bounds(current),
                        d.fits(m),
                        forall|p: Point|
                            m.in_bounds(p) && #[trigger] d.reached.at(p) ==> d.dist.at(p)
                                < usize::MAX,
                        forall|k: int|
                            0 <= k < neighbors.len() ==> m.step(current, #[trigger] neighbors[k]),
                        forall|k: int| 0 <= k < i
                            ==> !d.can_relax(current, #[trigger] neighbors[k]),
                    decreases neighbors.len() - i,
                {
                    let next = neighbors[i];
                    assert(m.step(current, neighbors[i as int]));
                    if d.reached.get(current) && (!d.reached.get(next) || d.dist.get(current) + 1
                        < d.dist.get(next)) {
                        return true;
                    }
                    i += 1;
                }
                proof {
                    assert forall|u: Point, w: Point|
                        scanned(m, y as int, x as int + 1).contains(u) && #[trigger] m.step(
                            u,
                            w,
                        ) implies !d.can_relax(u, w) by {
                        if u == current {
                            assert(neighbors@.contains(w));
                            let k = choose|k: int| 0 <= k < neighbors@.len() && neighbors@[k] == w;
                            assert(!d.can_relax(current, neighbors[k]));
                        } else {
                            assert(scanned(m, y as int, x as int).contains(u));
                        }
                    }
                }
                x += 1;
            }
            y += 1;
        }
        proof {
            assert forall|u: Point, w: Point| #[trigger] m.step(u, w)
                implies !d.can_relax(u, w) by {
                assert(scanned(m, y as int, 0).contains(u));
            }
        }
        false
    }
}

impl PathfindingAlgorithm for BellmanFord {
    #[verifier::rlimit(40)]
    fn find_path(&mut self, maze: &mut Maze, sink: &mut SnapshotSink)
        ensures
            shortest_search_result(old(maze)@, final(maze)@),
            !final(self).negative_cycle,
    {
        let ghost m0 = maze@;
        self.negative_cycle = false;
        let entrance = maze.get_entrance().unwrap();
        let exit = maze.get_exit().unwrap();
        proof {
            m0.lemma_index_in_range(entrance);
            m0.lemma_index_in_range(exit);
        }
        assert(entrance != exit);
        assert(maze.cells.len() == maze.width * maze.height);
        proof {
            lemma_frames_extend_start(sink@, m0);
        }
        let ghost frames0 = sink@;
        let mut d = Distances {
            reached: Grid::new(maze.width, maze.height, false),
            dist: Grid::new(maze.width, maze.height, 0),
            pred: Grid::new(maze.width, maze.height, None),
        };
        proof {
            lemma_marks_only_reflexive(m0);
            d.reached.lemma_index(entrance);
            lemma_count_false_update(d.reached.cells@, entrance.y * d.reached.width + entrance.x);
            lemma_count_false_bound(d.reached.cells@);
        }
        d.reached.set(entrance, true);
        tag_and_show(
            maze,
            sink,
            entrance,
            CellType::Visited,
            None,
            Ghost(m0),
            Ghost(frames0),
        );
        proof {
            assert(covers(m0, entrance, &d, 0)) by {
                reveal(covers);
                assert forall|p: Point, moves: nat|
                    moves <= 0 && #[trigger] m0.within(entrance, p, moves) implies d.reached.at(p)
                    && d.dist.at(p) <= moves by {
                    lemma_walk_ends_in_bounds(m0, entrance, p, moves);
                }
            }
        }
        let rounds = maze.width * maze.height - 1;
        let mut round: usize = 0;
        while round < rounds
            invariant
                round <= rounds,
                rounds + 1 == m0.width * m0.height,
                m0 == old(maze)@,
                searchable(old(maze)),
                m0.entrance() == Some(entrance),
                m0.exit() == Some(exit),
                m0.in_bounds(exit),
                maze.wf(),
                maze.width == old(maze).width,
                maze.height == old(maze).height,
                maze.maze_type == old(maze).maze_type,
                relax_inv(m0, maze@, entrance, &d),
                d.reached.at(exit) ==> d.dist.at(exit) > round,
                covers(m0, entrance, &d, round as nat),
                !self.negative_cycle,
                sink.follows(old(sink)),
                frames_extend(frames0, sink@, m0),
                frames_up_to_date(frames0, sink@, m0, maze@),
                frames0 == old(sink)@,
                sink@.len() > old(sink)@.len(),
                sink.shows(maze),
            decreases rounds - round,
        {
            Self::scan_round(
                maze,
                &mut d,
                sink,
                Ghost(m0),
                Ghost(entrance),
                Ghost(frames0),
                Ghost(round as nat),
            );
            if d.reached.get(exit) && d.dist.get(exit) <= round + 1 {
                let ghost label = d.labels();
                assert(label.dom().contains(exit));
                proof {
                    lemma_distance_final(m0, entrance, exit, &d, (round + 1) as nat);
                }
                tag_route(
                    maze,
                    sink,
                    &d.pred,
                    entrance,
                    exit,
                    Ghost(m0),
                    Ghost(label),
                    Ghost(label.dom()),
                    Ghost(frames0),
                );
                proof {
                    lemma_route_found(m0, maze@, entrance, exit, label, d.pred, label.dom());
                    lemma_shortest_is_complete(m0, maze@);
                }
                return ;
            }
            round += 1;
        }
        proof {
            if d.reached.at(exit) {
                assert(d.labels().dom().contains(exit));
            }
            lemma_converged(m0, maze@, entrance, &d, round as nat);
            assert forall|p: Point| m0.in_bounds(p) && #[trigger] d.reached.at(p)
                implies d.dist.at(p)
                < usize::MAX by {
                assert(d.labels().dom().contains(p));
            }
        }
        self.negative_cycle = Self::has_relaxable_edge(maze, &d, Ghost(m0));
        proof {
            let label = d.labels();
            lemma_search_exhausted(m0, maze@, entrance, exit, label, d.pred, label.dom());
            lemma_shortest_is_complete(m0, maze@);
        }
    }

    /// This search keeps no counters.
    fn get_stats(&self) -> (stats: Option<PathfindingStats>)
        ensures
            stats is None,
    {
        None
    }

    fn name(&self) -> (algorithm: Algorithm)
        ensures
            algorithm == Algorithm::BellmanFord,
    {
        Algorithm::BellmanFord
    }
}

} // verus!
