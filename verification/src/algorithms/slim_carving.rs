use rand::rngs::StdRng;
use vstd::prelude::*;
use super::carving::{
    closed_off, frames_ok, lemma_bump, lemma_closed_keep, lemma_frames_keep, lemma_jump_parity,
    lemma_pop_frame, lemma_push_frame, off_lattice, on_lattice, shuffled_doubled_directions,
    target_ok,
};
use super::directions::{is_doubled, lists_doubled_offsets};
use super::grid::{count_false, lemma_count_false_update, Grid};
use super::maze_generation::{seal_maze, valid_request, well_generated};
use super::pathfinding::{frames_grow, Frame, PathfindingStats, SnapshotSink};
use super::point::Point;
use crate::maze::{Maze, MazeType, MazeView};
use crate::maze_cell::{has_wall, wall_mask, with_wall, CellType, MazeCell, SlimWallsCellType};

verus! {

/// A cell of a maze with slim walls before anything is carved: a path with
/// a wall on each of its four edges.
pub open spec fn closed_cell() -> MazeCell {
    MazeCell { cell_type: CellType::Path, walls: 15 }
}

/// The maze `m` with the edge between the neighbours `a` and `b` opened:
/// each has lost its wall on the side of the other.
pub open spec fn edge_opened(m: MazeView, a: Point, b: Point) -> MazeView {
    MazeView {
        cells: m.cells.update(
            m.index(a),
            m.cell(a).with_wall_bits(
                with_wall(m.cell(a).walls, wall_mask(b.x - a.x, b.y - a.y), false),
            ),
        ).update(
            m.index(b),
            m.cell(b).with_wall_bits(
                with_wall(m.cell(b).walls, wall_mask(a.x - b.x, a.y - b.y), false),
            ),
        ),
        ..m
    }
}

/// Whether `later` is the maze `m` with the edges between the pairs of
/// `opened` opened and nothing else changed: a move of `later` is a move of
/// `m` or crosses one of those edges, and every move of `m` is one of
/// `later`.
pub open spec fn edges_added(m: MazeView, later: MazeView, opened: Set<(Point, Point)>) -> bool {
    &&& later.width == m.width
    &&& later.height == m.height
    &&& forall|p: Point, q: Point| #[trigger] m.step(p, q) ==> later.step(p, q)
    &&& forall|p: Point, q: Point| #[trigger]
        later.step(p, q) ==> m.step(p, q) || opened.contains((p, q)) || opened.contains((q, p))
}

/// What opening the edge between two neighbours does to a maze with slim
/// walls: the two can be moved between, no other move is gained and none is
/// lost, every tag stays, and every other cell is as before.
pub proof fn lemma_edge_opened(m: MazeView, a: Point, b: Point)
    requires
        m.wf(),
        m.maze_type == MazeType::Slim,
        m.in_bounds(a),
        m.in_bounds(b),
        a.adjacent(b),
    ensures
        edge_opened(m, a, b).wf(),
        edge_opened(m, a, b).maze_type == m.maze_type,
        edge_opened(m, a, b).original == m.original,
        edge_opened(m, a, b).step(a, b),
        edge_opened(m, a, b).step(b, a),
        edges_added(m, edge_opened(m, a, b), set![(a, b)]),
        forall|q: Point|
            m.in_bounds(q) ==> (#[trigger] edge_opened(m, a, b).cell(q)).cell_type == m.cell(
                q,
            ).cell_type,
        forall|q: Point|
            m.in_bounds(q) && q != a && q != b ==> #[trigger] edge_opened(m, a, b).cell(q)
                == m.cell(q),
{
    let later = edge_opened(m, a, b);
    let to_b = wall_mask(b.x - a.x, b.y - a.y);
    let to_a = wall_mask(a.x - b.x, a.y - b.y);
    m.lemma_index_in_range(a);
    m.lemma_index_in_range(b);
    if m.index(a) == m.index(b) {
        m.lemma_index_injective(a, b);
    }
    assert(later.cell(a) == m.cell(a).with_wall_bits(with_wall(m.cell(a).walls, to_b, false)));
    assert(later.cell(b) == m.cell(b).with_wall_bits(with_wall(m.cell(b).walls, to_a, false)));
    assert forall|q: Point| m.in_bounds(q) && q != a && q != b implies #[trigger] later.cell(q)
        == m.cell(q) by {
        m.lemma_index_in_range(q);
        if m.index(q) == m.index(a) {
            m.lemma_index_injective(q, a);
        }
        if m.index(q) == m.index(b) {
            m.lemma_index_injective(q, b);
        }
    }
    lemma_step_kept(m, later, a, b, a, b);
    lemma_step_kept(m, later, a, b, b, a);
    assert forall|p: Point, q: Point| #[trigger] m.step(p, q) implies later.step(p, q) by {
        lemma_step_kept(m, later, a, b, p, q);
    }
    assert forall|p: Point, q: Point| #[trigger] later.step(p, q) implies m.step(p, q) || set![(
        a,
        b,
    )].contains((p, q)) || set![(a, b)].contains((q, p)) by {
        lemma_step_kept(m, later, a, b, p, q);
    }
}

/// A move between two cells other than the two whose edge was opened is
/// neither gained nor lost.
proof fn lemma_step_kept(m: MazeView, later: MazeView, a: Point, b: Point, p: Point, q: Point)
    requires
        m.maze_type == MazeType::Slim,
        later.maze_type == MazeType::Slim,
        later.width == m.width,
        later.height == m.height,
        a.adjacent(b),
        m.in_bounds(a),
        m.in_bounds(b),
        later.cell(a) == m.cell(a).with_wall_bits(
            with_wall(m.cell(a).walls, wall_mask(b.x - a.x, b.y - a.y), false),
        ),
        later.cell(b) == m.cell(b).with_wall_bits(
            with_wall(m.cell(b).walls, wall_mask(a.x - b.x, a.y - b.y), false),
        ),
        forall|c: Point|
            m.in_bounds(c) && c != a && c != b ==> #[trigger] later.cell(c) == m.cell(c),
    ensures
        m.step(p, q) ==> later.step(p, q),
        later.step(p, q) ==> m.step(p, q) || (p == a && q == b) || (p == b && q == a),
        (p == a && q == b) || (p == b && q == a) ==> later.step(p, q),
{
    if m.in_bounds(p) && m.in_bounds(q) && p.adjacent(q) {
        let out = wall_mask(q.x - p.x, q.y - p.y);
        let back = wall_mask(p.x - q.x, p.y - q.y);
        lemma_side_kept(m.cell(a).walls, wall_mask(b.x - a.x, b.y - a.y), out);
        lemma_side_kept(m.cell(a).walls, wall_mask(b.x - a.x, b.y - a.y), back);
        lemma_side_kept(m.cell(b).walls, wall_mask(a.x - b.x, a.y - b.y), out);
        lemma_side_kept(m.cell(b).walls, wall_mask(a.x - b.x, a.y - b.y), back);
        if p != a && p != b {
            assert(later.cell(p) == m.cell(p));
        }
        if q != a && q != b {
            assert(later.cell(q) == m.cell(q));
        }
    }
}

/// Clearing one wall bit clears that bit and keeps the other three.
proof fn lemma_side_kept(walls: u8, cleared: u8, side: u8)
    requires
        cleared == 1 || cleared == 2 || cleared == 4 || cleared == 8,
        side == 1 || side == 2 || side == 4 || side == 8,
    ensures
        has_wall(with_wall(walls, cleared, false), side) == (side != cleared && has_wall(
            walls,
            side,
        )),
{
    assert((walls & !cleared) & cleared == 0) by (bit_vector);
    if side != cleared {
        assert(((walls & !cleared) & side) == walls & side) by (bit_vector)
            requires
                cleared == 1 || cleared == 2 || cleared == 4 || cleared == 8,
                side == 1 || side == 2 || side == 4 || side == 8,
                side != cleared,
        ;
    }
}

/// Every chain of moves of `m` is one of `later`, where no move was lost.
pub proof fn lemma_reach_kept(m: MazeView, later: MazeView, a: Point, b: Point)
    requires
        later.width == m.width,
        later.height == m.height,
        forall|p: Point, q: Point| #[trigger] m.step(p, q) ==> later.step(p, q),
        m.reachable(a, b),
    ensures
        later.reachable(a, b),
{
    let walk = choose|walk: Seq<Point>| m.walk_between(walk, a, b);
    assert forall|i: int| 0 <= i < walk.len() - 1 implies later.step(
        #[trigger] walk[i],
        walk[i + 1],
    ) by {
        assert(m.step(walk[i], walk[i + 1]));
    }
    assert(later.walk_between(walk, a, b));
}

/// One more move at the end of a chain of moves.
pub proof fn lemma_reach_on(m: MazeView, a: Point, b: Point, c: Point)
    requires
        m.reachable(a, b),
        m.step(b, c),
    ensures
        m.reachable(a, c),
{
    let walk = choose|walk: Seq<Point>| m.walk_between(walk, a, b);
    m.lemma_walk_push(walk, c);
    assert(m.walk_between(walk.push(c), a, c));
}

/// Whether the corridors of a maze with slim walls are those of a carving
/// from `origin`: every cell is a path; a cell an odd number of columns and
/// of rows from `origin` has its four walls; and whoever can make a move
/// from a cell can reach that cell from `origin`.
pub open spec fn slim_corridors(m: MazeView, origin: Point) -> bool {
    &&& forall|p: Point|
        m.in_bounds(p) && p != origin && Some(p) != m.exit() ==> (#[trigger] m.cell(p)).cell_type
            == CellType::Path
    &&& forall|p: Point|
        m.in_bounds(p) && off_lattice(origin, p) ==> (#[trigger] m.cell(p)).walls == 15
    &&& forall|p: Point, q: Point| #[trigger] m.step(p, q) ==> m.reachable(origin, p)
}

/// What holds of a maze with slim walls while passages are carved from
/// `origin`: every cell is a path, the cells that the carving jumped to lie
/// on the lattice and can be reached from `origin`, each but `origin` has
/// an open edge, the cells off the lattice have their four walls, and
/// every cell with an open edge can be reached from `origin`.
#[verifier::opaque]
pub open spec fn slim_ground(m: MazeView, origin: Point, visited: Set<Point>) -> bool {
    &&& m.wf()
    &&& m.maze_type == MazeType::Slim
    &&& m.in_bounds(origin)
    &&& visited.contains(origin)
    &&& forall|p: Point| m.in_bounds(p) ==> (#[trigger] m.cell(p)).cell_type == CellType::Path
    &&& forall|v: Point| #[trigger] visited.contains(v) ==> m.in_bounds(v) && on_lattice(origin, v)
    &&& forall|v: Point| #[trigger] visited.contains(v) ==> m.reachable(origin, v)
    &&& forall|v: Point| visited.contains(v) && v != origin ==> #[trigger] m.has_open_neighbor(v)
    &&& forall|p: Point|
        m.in_bounds(p) && off_lattice(origin, p) ==> (#[trigger] m.cell(p)).walls == 15
    &&& forall|p: Point, q: Point| #[trigger] m.step(p, q) ==> m.reachable(origin, p)
}

/// The cell between the two cells of a jump.
pub open spec fn midpoint(a: Point, b: Point) -> Point {
    Point { x: ((a.x + b.x) / 2) as usize, y: ((a.y + b.y) / 2) as usize }
}

/// The maze after a jump from `current` to `next`: the two edges on the way
/// are open.
pub open spec fn jumped(m: MazeView, current: Point, next: Point) -> MazeView {
    edge_opened(
        edge_opened(m, current, midpoint(current, next)),
        midpoint(current, next),
        next,
    )
}

/// A jump from a cell that the carving has been to, to one that it has not,
/// keeps the corridors those of a carving.
pub proof fn lemma_jump(
    m: MazeView,
    origin: Point,
    visited: Set<Point>,
    current: Point,
    next: Point,
)
    requires
        slim_ground(m, origin, visited),
        visited.contains(current),
        m.in_bounds(next),
        is_doubled(next.x - current.x, next.y - current.y),
    ensures
        slim_ground(jumped(m, current, next), origin, visited.insert(next)),
        jumped(m, current, next).wf(),
        jumped(m, current, next).width == m.width,
        jumped(m, current, next).height == m.height,
        jumped(m, current, next).original == m.original,
        m.in_bounds(midpoint(current, next)),
        current.adjacent(midpoint(current, next)),
        midpoint(current, next).adjacent(next),
{
    reveal(slim_ground);
    let middle = midpoint(current, next);
    lemma_jump_parity(origin, current, next);
    assert(m.in_bounds(middle)) by (nonlinear_arith)
        requires
            m.in_bounds(current),
            m.in_bounds(next),
            middle == midpoint(current, next),
    {
    }
    let first = edge_opened(m, current, middle);
    lemma_edge_opened(m, current, middle);
    let after = edge_opened(first, middle, next);
    lemma_edge_opened(first, middle, next);
    assert(after == jumped(m, current, next));
    assert forall|p: Point, q: Point| #[trigger] m.step(p, q) implies after.step(p, q) by {
        assert(first.step(p, q));
    }
    assert(after.step(current, middle)) by {
        assert(first.step(current, middle));
    }
    assert(after.reachable(origin, current)) by {
        lemma_reach_kept(m, after, origin, current);
    }
    lemma_reach_on(after, origin, current, middle);
    lemma_reach_on(after, origin, middle, next);
    assert forall|p: Point| after.in_bounds(p) implies (#[trigger] after.cell(p)).cell_type
        == CellType::Path by {
        assert(first.cell(p).cell_type == m.cell(p).cell_type);
    }
    assert forall|p: Point| after.in_bounds(p) && off_lattice(origin, p) implies (
    #[trigger] after.cell(p)).walls == 15 by {
        assert(first.cell(p) == m.cell(p));
    }
    let more = visited.insert(next);
    assert forall|v: Point| #[trigger] more.contains(v) implies after.reachable(origin, v) by {
        if v != next {
            lemma_reach_kept(m, after, origin, v);
        }
    }
    assert forall|v: Point| more.contains(v) && v != origin implies #[trigger]
        after.has_open_neighbor(v) by {
        if v == next {
            assert(after.step(next, middle));
            assert(after.in_bounds(middle) && next.adjacent(middle));
            assert(after.passable(next, middle));
        } else {
            assert(m.has_open_neighbor(v));
            let q = choose|q: Point| m.in_bounds(q) && v.adjacent(q) && #[trigger] m.passable(v, q);
            assert(m.step(v, q));
            assert(after.step(v, q));
        }
    }
    assert forall|p: Point, q: Point| #[trigger] after.step(p, q) implies after.reachable(
        origin,
        p,
    ) by {
        if first.step(p, q) {
            if m.step(p, q) {
                lemma_reach_kept(m, after, origin, p);
            } else {
                assert(set![(current, middle)].contains((p, q)) || set![(
                    current,
                    middle,
                )].contains((q, p)));
            }
        } else {
            assert(set![(middle, next)].contains((p, q)) || set![(middle, next)].contains((q, p)));
        }
    }
}

/// What the last cell of a stack in order is.
proof fn lemma_slim_top(
    m: MazeView,
    origin: Point,
    stack: Seq<Point>,
    orders: Seq<Vec<(i32, i32)>>,
    cursor: Seq<usize>,
    visited: Set<Point>,
)
    requires
        slim_ground(m, origin, visited),
        frames_ok(m, stack, orders, cursor, visited),
        stack.len() > 0,
    ensures
        orders.len() == stack.len(),
        cursor.len() == stack.len(),
        visited.contains(stack.last()),
        m.in_bounds(stack.last()),
        lists_doubled_offsets(orders.last()@),
        cursor.last() <= orders.last().len(),
{
    reveal(slim_ground);
    reveal(frames_ok);
    assert(visited.contains(stack[stack.len() - 1]));
}

/// Jumps from `current` to `next`: opens the two edges on the way and
/// sends a snapshot.
fn open_slim_passage(
    maze: &mut Maze,
    sink: &mut SnapshotSink,
    current: Point,
    next: Point,
    Ghost(origin): Ghost<Point>,
    Ghost(visited): Ghost<Set<Point>>,
    Ghost(frames0): Ghost<Seq<Frame>>,
)
    requires
        old(maze).wf(),
        slim_ground(old(maze)@, origin, visited),
        visited.contains(current),
        old(maze)@.in_bounds(current),
        old(maze)@.in_bounds(next),
        is_doubled(next.x - current.x, next.y - current.y),
        frames_grow(frames0, old(sink)@),
    ensures
        final(maze).wf(),
        final(maze).width == old(maze).width,
        final(maze).height == old(maze).height,
        final(maze).maze_type == old(maze).maze_type,
        final(maze)@.original == old(maze)@.original,
        final(maze)@ == jumped(old(maze)@, current, next),
        slim_ground(final(maze)@, origin, visited.insert(next)),
        final(sink).follows(old(sink)),
        frames_grow(frames0, final(sink)@),
{
    proof {
        lemma_jump(maze@, origin, visited, current, next);
        reveal(slim_ground);
        lemma_edge_opened(maze@, current, midpoint(current, next));
    }
    let middle = Point { x: (current.x + next.x) / 2, y: (current.y + next.y) / 2 };
    maze.remove_walls_between_cells(current, middle);
    maze.remove_walls_between_cells(middle, next);
    sink.record(maze, Ghost(frames0));
}

/// Carves passages into a maze with slim walls in which every edge is
/// closed, depth first, from `start`: jumps two cells at a time, in a
/// random order of directions, to cells that it has not been to, and opens
/// the two edges on the way. Returns the cells that it has been to.
#[verifier::rlimit(40)]
pub(crate) fn carve_slim_passages(
    maze: &mut Maze,
    start: Point,
    rng: &mut StdRng,
    sink: &mut SnapshotSink,
    Ghost(frames0): Ghost<Seq<Frame>>,
) -> (visited: Ghost<Set<Point>>)
    requires
        old(maze).wf(),
        old(maze).maze_type == MazeType::Slim,
        old(maze)@.in_bounds(start),
        forall|p: Point| old(maze)@.in_bounds(p) ==> #[trigger] old(maze)@.cell(p) == closed_cell(),
        frames_grow(frames0, old(sink)@),
    ensures
        final(maze).wf(),
        final(maze).width == old(maze).width,
        final(maze).height == old(maze).height,
        final(maze).maze_type == old(maze).maze_type,
        final(maze)@.original == old(maze)@.original,
        slim_ground(final(maze)@, start, visited@),
        closed_off(final(maze)@, Seq::<Point>::empty(), visited@),
        final(sink).follows(old(sink)),
        frames_grow(frames0, final(sink)@),
{
    assert(maze.cells.len() == maze.width * maze.height);
    let mut seen: Grid<bool> = Grid::new(maze.width, maze.height, false);
    seen.set(start, true);
    let mut stack: Vec<Point> = Vec::new();
    let mut orders: Vec<Vec<(i32, i32)>> = Vec::new();
    let mut cursor: Vec<usize> = Vec::new();
    let ghost mut visited: Set<Point> = Set::<Point>::empty().insert(start);
    let first_order = shuffled_doubled_directions(rng);
    stack.push(start);
    orders.push(first_order);
    cursor.push(0);
    proof {
        lemma_closed_start(maze@, start);
        reveal(frames_ok);
        reveal(closed_off);
        assert(stack@[0] == start);
        assert(closed_off(maze@, stack@, visited)) by {
            assert forall|c: Point, dx: int, dy: int|
                #[trigger] visited.contains(c) && !stack@.contains(c) && #[trigger] is_doubled(
                    dx,
                    dy,
                ) && target_ok(maze@, c, dx, dy) implies visited.contains(c.shifted(dx, dy)) by {
                assert(stack@[0] == c);
            }
        }
        assert forall|p: Point| maze@.in_bounds(p) implies #[trigger] seen.at(p)
            == visited.contains(p) by {
            seen.lemma_index(p);
            if p != start {
                seen.lemma_index_injective(p, start);
            }
        }
    }
    while stack.len() > 0
        invariant
            maze.wf(),
            maze.width == old(maze).width,
            maze.height == old(maze).height,
            maze.maze_type == old(maze).maze_type,
            maze@.original == old(maze)@.original,
            slim_ground(maze@, start, visited),
            frames_ok(maze@, stack@, orders@, cursor@, visited),
            closed_off(maze@, stack@, visited),
            seen.wf(),
            seen.width == maze.width,
            seen.height == maze.height,
            forall|p: Point| maze@.in_bounds(p) ==> #[trigger] seen.at(p) == visited.contains(p),
            sink.follows(old(sink)),
            frames_grow(frames0, sink@),
        decreases
                count_false(seen.cells@),
                stack@.len(),
                (if stack@.len() > 0 {
                    orders@.last().len() - cursor@.last()
                } else {
                    0int
                }),
    {
        proof {
            lemma_slim_top(maze@, start, stack@, orders@, cursor@, visited);
        }
        let top = stack.len() - 1;
        let current = stack[top];
        let k = cursor[top];
        let ghost m0 = maze@;
        let ghost visited0 = visited;
        let ghost stack0 = stack@;
        let ghost orders0 = orders@;
        let ghost cursor0 = cursor@;
        if k < orders[top].len() {
            let (dx, dy) = orders[top][k];
            proof {
                assert(is_doubled(
                    orders0[top as int][k as int].0 as int,
                    orders0[top as int][k as int].1 as int,
                ));
            }
            match maze.neighbor(current, dx, dy) {
                Some(next) => {
                    if !seen.get(next) {
                        open_slim_passage(
                            maze,
                            sink,
                            current,
                            next,
                            Ghost(start),
                            Ghost(visited0),
                            Ghost(frames0),
                        );
                        let ghost before = seen;
                        proof {
                            seen.lemma_index(next);
                            lemma_count_false_update(seen.cells@, next.y * seen.width + next.x);
                        }
                        seen.set(next, true);
                        let order = shuffled_doubled_directions(rng);
                        proof {
                            visited = visited0.insert(next);
                            assert forall|p: Point| maze@.in_bounds(p) implies #[trigger] seen.at(p)
                                == visited.contains(p) by {
                                seen.lemma_index(p);
                                if p != next {
                                    before.lemma_index_injective(p, next);
                                    assert(seen.at(p) == before.at(p));
                                }
                            }
                            lemma_frames_keep(
                                m0,
                                maze@,
                                stack0,
                                orders0,
                                cursor0,
                                visited0,
                                visited,
                            );
                            lemma_bump(maze@, stack0, orders0, cursor0, visited, top as int);
                        }
                        cursor[top] = k + 1;
                        proof {
                            lemma_closed_keep(m0, maze@, stack0, visited0);
                            lemma_push_frame(
                                maze@,
                                stack@,
                                orders@,
                                cursor@,
                                visited0,
                                next,
                                order,
                            );
                        }
                        stack.push(next);
                        orders.push(order);
                        cursor.push(0);
                    } else {
                        proof {
                            lemma_bump(m0, stack0, orders0, cursor0, visited0, top as int);
                        }
                        cursor[top] = k + 1;
                    }
                },
                None => {
                    proof {
                        lemma_bump(m0, stack0, orders0, cursor0, visited0, top as int);
                    }
                    cursor[top] = k + 1;
                },
            }
        } else {
            proof {
                lemma_pop_frame(m0, stack0, orders0, cursor0, visited0);
            }
            stack.pop();
            orders.pop();
            cursor.pop();
        }
    }
    proof {
        assert(stack@ =~= Seq::<Point>::empty());
    }
    Ghost(visited)
}

/// A maze in which every edge is closed is the ground of a carving that
/// has been to its origin only.
proof fn lemma_closed_start(m: MazeView, origin: Point)
    requires
        m.wf(),
        m.maze_type == MazeType::Slim,
        m.in_bounds(origin),
        forall|p: Point| m.in_bounds(p) ==> #[trigger] m.cell(p) == closed_cell(),
    ensures
        slim_ground(m, origin, Set::<Point>::empty().insert(origin)),
{
    reveal(slim_ground);
    assert(m.walk_between(seq![origin], origin, origin));
    assert forall|p: Point, q: Point| #[trigger] m.step(p, q) implies m.reachable(origin, p) by {
        let out = wall_mask(q.x - p.x, q.y - p.y);
        assert(15u8 & 1 != 0 && 15u8 & 2 != 0 && 15u8 & 4 != 0 && 15u8 & 8 != 0) by (bit_vector);
        assert(m.cell(p) == closed_cell());
        assert(has_wall(m.cell(p).walls, out));
    }
}

/// Once the carving is over, the column of the origin was jumped along:
/// every cell an even number of rows above the origin was jumped to.
proof fn lemma_slim_column(m: MazeView, origin: Point, visited: Set<Point>, k: nat)
    requires
        slim_ground(m, origin, visited),
        closed_off(m, Seq::<Point>::empty(), visited),
        2 * k <= origin.y,
    ensures
        visited.contains(Point { x: origin.x, y: (origin.y - 2 * k) as usize }),
    decreases k,
{
    if k == 0 {
        reveal(slim_ground);
    } else {
        lemma_slim_column(m, origin, visited, (k - 1) as nat);
        let below = Point { x: origin.x, y: (origin.y - 2 * (k - 1)) as usize };
        reveal(slim_ground);
        reveal(closed_off);
        assert(m.in_bounds(below));
        assert(!Seq::<Point>::empty().contains(below));
        assert(is_doubled(0, -2));
        assert(target_ok(m, below, 0, -2));
        assert(below.shifted(0, -2) == Point { x: origin.x, y: (origin.y - 2 * k) as usize });
    }
}

/// Whether a carved maze with slim walls is ready for its tags: every cell
/// is a path, the cells off the lattice of `entrance` have their four
/// walls, every cell with an open edge can be reached from `entrance`, and
/// so can `exit`, which lies on an edge of the outer ring.
pub open spec fn slim_ready(m: MazeView, entrance: Point, exit: Point) -> bool {
    &&& m.wf()
    &&& m.maze_type == MazeType::Slim
    &&& forall|p: Point| m.in_bounds(p) ==> (#[trigger] m.cell(p)).cell_type == CellType::Path
    &&& forall|p: Point|
        m.in_bounds(p) && off_lattice(entrance, p) ==> (#[trigger] m.cell(p)).walls == 15
    &&& forall|p: Point, q: Point| #[trigger] m.step(p, q) ==> m.reachable(entrance, p)
    &&& m.on_boundary_edge(exit)
    &&& m.reachable(entrance, exit)
}

/// A cell of the outer ring with an open edge can be the exit as the maze
/// is.
proof fn lemma_exit_found(m: MazeView, entrance: Point, visited: Set<Point>, exit: Point)
    requires
        slim_ground(m, entrance, visited),
        m.exit_candidate(exit),
    ensures
        slim_ready(m, entrance, exit),
{
    reveal(slim_ground);
    let q = choose|q: Point| m.in_bounds(q) && exit.adjacent(q) && #[trigger] m.passable(exit, q);
    assert(m.step(exit, q));
}

/// Where no cell of the outer ring has an open edge, the cell of the first
/// row above the entrance can be the exit once the edge below it is opened.
proof fn lemma_exit_opened(m: MazeView, entrance: Point, visited: Set<Point>)
    requires
        slim_ground(m, entrance, visited),
        closed_off(m, Seq::<Point>::empty(), visited),
        1 <= entrance.x,
        entrance.x + 1 < m.width,
        1 <= entrance.y,
        entrance.y + 1 < m.height,
        forall|p: Point| !m.exit_candidate(p),
    ensures
        m.in_bounds(Point { x: entrance.x, y: 0 }),
        m.in_bounds(Point { x: entrance.x, y: 1 }),
        (Point { x: entrance.x, y: 0 }).adjacent(Point { x: entrance.x, y: 1 }),
        slim_ready(
            edge_opened(m, Point { x: entrance.x, y: 0 }, Point { x: entrance.x, y: 1 }),
            entrance,
            Point { x: entrance.x, y: 0 },
        ),
        edge_opened(m, Point { x: entrance.x, y: 0 }, Point { x: entrance.x, y: 1 }).original
            == m.original,
{
    let k = (entrance.y / 2) as nat;
    lemma_slim_column(m, entrance, visited, k);
    let top = Point { x: entrance.x, y: (entrance.y - 2 * k) as usize };
    let exit = Point { x: entrance.x, y: 0 };
    let inner = Point { x: entrance.x, y: 1 };
    reveal(slim_ground);
    assert(m.in_bounds(top));
    if top.y == 0 {
        assert(top != entrance);
        assert(m.has_open_neighbor(top));
        assert(m.exit_candidate(top));
    }
    assert(top == inner);
    let after = edge_opened(m, exit, inner);
    lemma_edge_opened(m, exit, inner);
    lemma_reach_kept(m, after, entrance, inner);
    lemma_reach_on(after, entrance, inner, exit);
    assert(entrance.y % 2 == 1);
    assert forall|p: Point| after.in_bounds(p) && off_lattice(entrance, p) implies (
    #[trigger] after.cell(p)).walls == 15 by {
        assert(after.cell(p) == m.cell(p));
    }
    assert forall|p: Point, q: Point| #[trigger] after.step(p, q) implies after.reachable(
        entrance,
        p,
    ) by {
        if m.step(p, q) {
            lemma_reach_kept(m, after, entrance, p);
        } else {
            assert(set![(exit, inner)].contains((p, q)) || set![(exit, inner)].contains((q, p)));
        }
    }
}

/// Tagging a cell of a maze with slim walls gains no move and loses none.
proof fn lemma_slim_tagged(m: MazeView, p: Point, tag: CellType)
    requires
        m.wf(),
        m.maze_type == MazeType::Slim,
        m.in_bounds(p),
    ensures
        forall|a: Point, b: Point| #[trigger] m.marked(p, tag).step(a, b) == m.step(a, b),
        forall|a: Point, b: Point| #[trigger]
            m.marked(p, tag).reachable(a, b) == m.reachable(a, b),
        forall|q: Point| m.in_bounds(q) ==> (#[trigger] m.marked(p, tag).cell(q)).walls == m.cell(
            q,
        ).walls,
{
    let after = m.marked(p, tag);
    m.lemma_marked(p, tag);
    assert forall|q: Point| m.in_bounds(q) implies (#[trigger] after.cell(q)).walls == m.cell(
        q,
    ).walls by {
        if q != p {
            assert(after.cell(q) == m.cell(q));
        }
    }
    assert forall|a: Point, b: Point| #[trigger] after.step(a, b) == m.step(a, b) by {
        if m.in_bounds(a) && m.in_bounds(b) {
            assert(after.cell(a).walls == m.cell(a).walls);
            assert(after.cell(b).walls == m.cell(b).walls);
        }
    }
    assert forall|a: Point, b: Point| #[trigger] after.reachable(a, b) == m.reachable(a, b) by {
        if m.reachable(a, b) {
            lemma_reach_kept(m, after, a, b);
        }
        if after.reachable(a, b) {
            lemma_reach_kept(after, m, a, b);
        }
    }
}

/// Closes every edge of a maze of paths with slim walls.
fn close_all_edges(maze: &mut Maze)
    requires
        old(maze).wf(),
    ensures
        final(maze).wf(),
        final(maze).width == old(maze).width,
        final(maze).height == old(maze).height,
        final(maze).maze_type == old(maze).maze_type,
        final(maze)@.original == old(maze)@.original,
        forall|p: Point| final(maze)@.in_bounds(p) ==> #[trigger] final(maze)@.cell(p)
            == closed_cell(),
{
    let mut i: usize = 0;
    while i < maze.cells.len()
        invariant
            i <= maze.cells.len(),
            maze.wf(),
            maze.width == old(maze).width,
            maze.height == old(maze).height,
            maze.maze_type == old(maze).maze_type,
            maze@.original == old(maze)@.original,
            forall|j: int| 0 <= j < i ==> #[trigger] maze.cells@[j] == closed_cell(),
        decreases maze.cells.len() - i,
    {
        maze.cells[i] = MazeCell { cell_type: CellType::Path, walls: 15 };
        i += 1;
    }
    proof {
        assert forall|p: Point| maze@.in_bounds(p) implies #[trigger] maze@.cell(p)
            == closed_cell() by {
            maze@.lemma_index_in_range(p);
        }
    }
}

/// Chooses the exit of a carved maze with slim walls: a random cell on an
/// edge of the outer ring that has an open edge or, where there is none,
/// the cell of the first row above the entrance, whose edge towards the
/// inside is then opened.
fn place_slim_exit(
    maze: &mut Maze,
    entrance: Point,
    rng: &mut StdRng,
    Ghost(visited): Ghost<Set<Point>>,
) -> (exit: Point)
    requires
        old(maze).wf(),
        valid_request(old(maze).width, old(maze).height, entrance),
        slim_ground(old(maze)@, entrance, visited),
        closed_off(old(maze)@, Seq::<Point>::empty(), visited),
    ensures
        final(maze).wf(),
        final(maze).width == old(maze).width,
        final(maze).height == old(maze).height,
        final(maze).maze_type == old(maze).maze_type,
        final(maze)@.original == old(maze)@.original,
        slim_ready(final(maze)@, entrance, exit),
{
    match maze.get_random_boundary_point(rng) {
        Some(exit) => {
            proof {
                lemma_exit_found(maze@, entrance, visited, exit);
            }
            exit
        },
        None => {
            proof {
                lemma_exit_opened(maze@, entrance, visited);
                reveal(slim_ground);
            }
            let exit = Point { x: entrance.x, y: 0 };
            maze.remove_walls_between_cells(exit, Point { x: entrance.x, y: 1 });
            exit
        },
    }
}

/// Tags the entrance and the exit of a carved maze with slim walls and
/// takes the result as the snapshot.
fn tag_slim_maze(maze: &mut Maze, entrance: Point, exit: Point)
    requires
        old(maze).wf(),
        valid_request(old(maze).width, old(maze).height, entrance),
        slim_ready(old(maze)@, entrance, exit),
    ensures
        final(maze).wf(),
        final(maze).width == old(maze).width,
        final(maze).height == old(maze).height,
        final(maze).maze_type == old(maze).maze_type,
        well_generated(
            final(maze)@,
            old(maze).maze_type,
            old(maze).width,
            old(maze).height,
            entrance,
        ),
        final(maze)@.exit() == Some(exit),
        final(maze)@.on_boundary_edge(exit),
        slim_corridors(final(maze)@, entrance),
{
    let ghost carved = maze@;
    proof {
        lemma_slim_tagged(carved, entrance, CellType::Entrance);
        carved.lemma_marked(entrance, CellType::Entrance);
    }
    maze.mark_cell_as_entrance(entrance);
    let ghost tagged = maze@;
    proof {
        lemma_slim_tagged(tagged, exit, CellType::Exit);
        tagged.lemma_marked(exit, CellType::Exit);
    }
    maze.mark_cell_as_exit(exit);
    let ghost marked = maze@;
    proof {
        assert(marked.reachable(entrance, exit));
        assert forall|p: Point|
            marked.in_bounds(p) && p != entrance && p != exit implies (#[trigger] marked.cell(
            p,
        )).cell_type == CellType::Wall || marked.cell(p).cell_type == CellType::Path by {
            assert(marked.cell(p) == tagged.cell(p));
            assert(tagged.cell(p) == carved.cell(p));
        }
    }
    seal_maze(maze, Ghost(entrance), Ghost(exit));
    proof {
        let made = maze@;
        assert forall|p: Point| made.in_bounds(p) implies #[trigger] made.cell(p) == marked.cell(
            p,
        ) by {}
        assert forall|p: Point, q: Point| #[trigger] made.step(p, q) implies made.reachable(
            entrance,
            p,
        ) by {
            assert(marked.step(p, q));
            assert(tagged.step(p, q));
            assert(carved.step(p, q));
            assert(carved.reachable(entrance, p));
            assert(tagged.reachable(entrance, p));
            assert(marked.reachable(entrance, p));
            lemma_reach_kept(marked, made, entrance, p);
        }
        assert forall|p: Point| made.in_bounds(p) && off_lattice(entrance, p) implies (
        #[trigger] made.cell(p)).walls == 15 by {
            assert(marked.cell(p).walls == tagged.cell(p).walls);
            assert(tagged.cell(p).walls == carved.cell(p).walls);
        }
        assert forall|p: Point|
            made.in_bounds(p) && p != entrance && Some(p) != made.exit() implies (
        #[trigger] made.cell(p)).cell_type == CellType::Path by {
            assert(marked.cell(p) == tagged.cell(p));
            assert(tagged.cell(p) == carved.cell(p));
        }
    }
}

/// A maze with slim walls of the size asked for, carved depth first from
/// the entrance out of a maze in which every edge is closed.
pub(crate) fn carve_slim_maze(
    width: usize,
    height: usize,
    entrance: Point,
    rng: &mut StdRng,
    sink: &mut SnapshotSink,
) -> (maze: Maze)
    requires
        valid_request(width, height, entrance),
    ensures
        maze.wf(),
        maze.width == width,
        maze.height == height,
        maze.maze_type == MazeType::Slim,
        well_generated(maze@, MazeType::Slim, width, height, entrance),
        maze@.on_boundary_edge(maze@.exit()->0),
        slim_corridors(maze@, entrance),
        final(sink).follows(old(sink)),
        frames_grow(old(sink)@, final(sink)@),
        final(sink)@.len() > old(sink)@.len(),
        final(sink)@.last() == (None::<PathfindingStats>, maze@),
{
    let ghost frames0 = sink@;
    assert(sink@.subrange(0, sink@.len() as int) =~= sink@);
    let mut maze = Maze::new(width, height, MazeType::Slim, None);
    close_all_edges(&mut maze);
    sink.record(&maze, Ghost(frames0));
    let visited = carve_slim_passages(&mut maze, entrance, rng, sink, Ghost(frames0));
    let exit = place_slim_exit(&mut maze, entrance, rng, visited);
    tag_slim_maze(&mut maze, entrance, exit);
    sink.record(&maze, Ghost(frames0));
    maze
}

} // verus!
