use rand::rngs::StdRng;
use vstd::prelude::*;
use super::directions::{is_doubled, lemma_reordered_offsets, lists_doubled_offsets, Movements};
use super::grid::{count_false, lemma_count_false_update};
use super::maze_generation::lemma_carve_keeps_connected;
use super::pathfinding::{frames_grow, Frame, SnapshotSink};
use super::point::Point;
use crate::maze::{Maze, MazeType, MazeView};
use crate::maze_cell::{CellType, MazeCell};
use crate::random::shuffle;

verus! {

/// Whether `p` lies an even number of columns and of rows from `origin`:
/// it is one of the cells that the carving jumps between.
pub open spec fn on_lattice(origin: Point, p: Point) -> bool {
    p.x % 2 == origin.x % 2 && p.y % 2 == origin.y % 2
}

/// Whether `p` lies between two neighbouring cells of the lattice.
pub open spec fn between_lattice(origin: Point, p: Point) -> bool {
    (p.x % 2 == origin.x % 2) != (p.y % 2 == origin.y % 2)
}

/// Whether `p` lies an odd number of columns and an odd number of rows
/// from `origin`: no jump reaches it and it lies between no two cells of a
/// jump.
pub open spec fn off_lattice(origin: Point, p: Point) -> bool {
    p.x % 2 != origin.x % 2 && p.y % 2 != origin.y % 2
}

/// Whether the walls between the corridors of a thick maze carved from
/// `origin` stand: every cell an odd number of columns and of rows from it
/// is a wall, unless the exit was put there.
pub open spec fn walls_between(m: MazeView, origin: Point) -> bool {
    forall|p: Point|
        m.in_bounds(p) && off_lattice(origin, p) && Some(p) != m.exit() ==> (#[trigger] m.cell(
            p,
        )) == MazeCell::new_spec(CellType::Wall)
}

/// How many cells of the maze are walls.
pub open spec fn closed_count(m: MazeView) -> nat {
    count_false(m.cells.map_values(|c: MazeCell| c.is_open()))
}

/// Whether the cell reached from `c` by `(dx, dy)` lies in the maze.
pub open spec fn target_ok(m: MazeView, c: Point, dx: int, dy: int) -> bool {
    0 <= c.x + dx < m.width && 0 <= c.y + dy < m.height
}

/// What holds of the cells while passages are carved from `origin`: every
/// cell is a wall or an open path without walls on its edges, the open
/// cells are those that the carving jumped to or opened between two jumps,
/// every cell that it jumped to other than `origin` has an open neighbour,
/// and every open cell can be reached from `origin`.
#[verifier::opaque]
pub open spec fn ground(m: MazeView, origin: Point, visited: Set<Point>, mids: Set<Point>) -> bool {
    &&& m.wf()
    &&& m.maze_type == MazeType::Thick
    &&& m.in_bounds(origin)
    &&& forall|p: Point|
        m.in_bounds(p) ==> {
            &&& (#[trigger] m.cell(p)) == MazeCell::new_spec(CellType::Wall) || m.cell(p)
                == MazeCell::new_spec(CellType::Path)
            &&& m.cell(p).is_open() <==> visited.contains(p) || mids.contains(p)
        }
    &&& forall|v: Point| #[trigger] visited.contains(v) ==> m.in_bounds(v) && on_lattice(origin, v)
    &&& forall|q: Point| #[trigger] mids.contains(q)
        ==> m.in_bounds(q) && between_lattice(origin, q)
    &&& visited.contains(origin)
    &&& forall|v: Point| visited.contains(v) && v != origin ==> #[trigger] m.has_open_neighbor(v)
    &&& m.connected_from(origin)
}

/// What holds of the stack of a carving: its cells were jumped to, each
/// has all four doubled directions in its order, and where a direction that
/// was tried leads to a cell of the maze, that cell was jumped to.
#[verifier::opaque]
pub open spec fn frames_ok(
    m: MazeView,
    stack: Seq<Point>,
    orders: Seq<Vec<(i32, i32)>>,
    cursor: Seq<usize>,
    visited: Set<Point>,
) -> bool {
    &&& orders.len() == stack.len()
    &&& cursor.len() == stack.len()
    &&& forall|i: int|
        0 <= i < stack.len() ==> {
            &&& visited.contains(#[trigger] stack[i])
            &&& lists_doubled_offsets(orders[i]@)
            &&& cursor[i] <= orders[i].len()
            &&& forall|j: int|
                0 <= j < cursor[i] && target_ok(
                    m,
                    stack[i],
                    (#[trigger] orders[i][j]).0 as int,
                    orders[i][j].1 as int,
                ) ==> visited.contains(stack[i].shifted(orders[i][j].0 as int,
                    orders[i][j].1 as int))
        }
}

/// From every cell that was jumped to and has left the stack, each cell
/// two steps away was jumped to as well.
#[verifier::opaque]
pub open spec fn closed_off(m: MazeView, stack: Seq<Point>, visited: Set<Point>) -> bool {
    forall|c: Point, dx: int, dy: int|
        #[trigger] visited.contains(c) && !stack.contains(c) && #[trigger] is_doubled(dx, dy)
            && target_ok(m, c, dx, dy) ==> visited.contains(c.shifted(dx, dy))
}

/// The state of a depth-first carving with an explicit stack.
pub struct Carver {
    /// The cells from the start to the cell of the moment.
    pub stack: Vec<Point>,
    /// For each cell of the stack, the order in which its directions are
    /// tried.
    pub orders: Vec<Vec<(i32, i32)>>,
    /// For each cell of the stack, how many directions were tried.
    pub cursor: Vec<usize>,
    /// The cells that the carving has jumped to.
    pub visited: Ghost<Set<Point>>,
    /// The cells that were opened between two cells of a jump.
    pub mids: Ghost<Set<Point>>,
}

impl Carver {
    /// How many directions of the last cell of the stack are untried.
    pub open spec fn untried(&self) -> int {
        if self.stack@.len() > 0 {
            self.orders@.last().len() - self.cursor@.last()
        } else {
            0
        }
    }

    /// What holds of the carving between any two of its steps.
    pub open spec fn inv(&self, m: MazeView, origin: Point) -> bool {
        &&& ground(m, origin, self.visited@, self.mids@)
        &&& frames_ok(m, self.stack@, self.orders@, self.cursor@, self.visited@)
        &&& closed_off(m, self.stack@, self.visited@)
    }

    /// Whether the carving is further along in `now` than `before` was in
    /// `then`: fewer walls, or a shorter stack, or fewer untried directions
    /// on top of a stack of the same length.
    pub open spec fn further_than(&self, now: MazeView, before: &Carver, then: MazeView) -> bool {
        ||| closed_count(now) < closed_count(then)
        ||| closed_count(now) == closed_count(then) && self.stack@.len() < before.stack@.len()
        ||| closed_count(now) == closed_count(then) && self.stack@.len() == before.stack@.len()
            && 0 <= self.untried() < before.untried()
    }
}

/// The doubled offsets in a fresh random order.
pub fn shuffled_doubled_directions(rng: &mut StdRng) -> (dirs: Vec<(i32, i32)>)
    ensures
        lists_doubled_offsets(dirs@),
        dirs.len() == 4,
{
    let mut dirs = Movements::doubled_direction_list();
    let ghost base = dirs@;
    shuffle(&mut dirs, rng);
    proof {
        lemma_reordered_offsets(dirs@, base);
        super::directions::lemma_same_entries(dirs@, base);
    }
    dirs
}

proof fn lemma_open_lowers_closed_count(m: MazeView, p: Point, tag: CellType)
    requires
        m.wf(),
        m.in_bounds(p),
        tag != CellType::Wall,
    ensures
        m.cell(p).is_open() ==> closed_count(m.marked(p, tag)) == closed_count(m),
        !m.cell(p).is_open() ==> closed_count(m.marked(p, tag)) + 1 == closed_count(m),
{
    m.lemma_index_in_range(p);
    let flags = m.cells.map_values(|c: MazeCell| c.is_open());
    let after = m.marked(p, tag).cells.map_values(|c: MazeCell| c.is_open());
    assert(after =~= flags.update(m.index(p), true));
    if m.cell(p).is_open() {
        assert(after =~= flags);
    } else {
        lemma_count_false_update(flags, m.index(p));
    }
}

/// Trying one more direction of the cell at `top` keeps the stack in
/// order, where the cell that the direction leads to was jumped to.
pub proof fn lemma_bump(
    m: MazeView,
    stack: Seq<Point>,
    orders: Seq<Vec<(i32, i32)>>,
    cursor: Seq<usize>,
    visited: Set<Point>,
    top: int,
)
    requires
        frames_ok(m, stack, orders, cursor, visited),
        0 <= top < stack.len(),
        cursor[top] < orders[top].len(),
        target_ok(
            m,
            stack[top],
            orders[top][cursor[top] as int].0 as int,
            orders[top][cursor[top] as int].1 as int,
        ) ==> visited.contains(
            stack[top].shifted(
                orders[top][cursor[top] as int].0 as int,
                orders[top][cursor[top] as int].1 as int,
            ),
        ),
    ensures
        frames_ok(m, stack, orders, cursor.update(top, (cursor[top] + 1) as usize), visited),
{
    reveal(frames_ok);
    let bumped = cursor.update(top, (cursor[top] + 1) as usize);
    assert forall|i: int| 0 <= i < stack.len() implies {
        &&& visited.contains(#[trigger] stack[i])
        &&& lists_doubled_offsets(orders[i]@)
        &&& bumped[i] <= orders[i].len()
        &&& forall|j: int|
            0 <= j < bumped[i] && target_ok(
                m,
                stack[i],
                (#[trigger] orders[i][j]).0 as int,
                orders[i][j].1 as int,
            ) ==> visited.contains(stack[i].shifted(orders[i][j].0 as int, orders[i][j].1 as int))
    } by {
        assert(visited.contains(stack[i]));
        assert(cursor[i] <= orders[i].len());
        assert forall|j: int|
            0 <= j < bumped[i] && target_ok(
                m,
                stack[i],
                (#[trigger] orders[i][j]).0 as int,
                orders[i][j].1 as int,
            ) implies visited.contains(
            stack[i].shifted(orders[i][j].0 as int, orders[i][j].1 as int),
        ) by {
            if j < cursor[i] {
            } else {
                assert(i == top && j == cursor[top]);
            }
        }
    }
}

/// The stack stays in order when more cells are jumped to and more cells
/// are opened.
pub proof fn lemma_frames_keep(
    m: MazeView,
    later: MazeView,
    stack: Seq<Point>,
    orders: Seq<Vec<(i32, i32)>>,
    cursor: Seq<usize>,
    visited: Set<Point>,
    more: Set<Point>,
)
    requires
        frames_ok(m, stack, orders, cursor, visited),
        later.width == m.width,
        later.height == m.height,
        forall|p: Point| visited.contains(p) ==> more.contains(p),
    ensures
        frames_ok(later, stack, orders, cursor, more),
{
    reveal(frames_ok);
    assert forall|i: int| 0 <= i < stack.len() implies {
        &&& more.contains(#[trigger] stack[i])
        &&& lists_doubled_offsets(orders[i]@)
        &&& cursor[i] <= orders[i].len()
        &&& forall|j: int|
            0 <= j < cursor[i] && target_ok(
                later,
                stack[i],
                (#[trigger] orders[i][j]).0 as int,
                orders[i][j].1 as int,
            ) ==> more.contains(stack[i].shifted(orders[i][j].0 as int, orders[i][j].1 as int))
    } by {
        assert(visited.contains(stack[i]));
    }
}

/// Putting a cell that was just jumped to on the stack keeps the stack in
/// order and the cells that left it closed off.
pub proof fn lemma_push_frame(
    m: MazeView,
    stack: Seq<Point>,
    orders: Seq<Vec<(i32, i32)>>,
    cursor: Seq<usize>,
    visited: Set<Point>,
    next: Point,
    order: Vec<(i32, i32)>,
)
    requires
        frames_ok(m, stack, orders, cursor, visited.insert(next)),
        closed_off(m, stack, visited),
        !visited.contains(next),
        lists_doubled_offsets(order@),
    ensures
        frames_ok(m, stack.push(next), orders.push(order), cursor.push(0), visited.insert(next)),
        closed_off(m, stack.push(next), visited.insert(next)),
{
    reveal(frames_ok);
    reveal(closed_off);
    let stack2 = stack.push(next);
    let orders2 = orders.push(order);
    let cursor2 = cursor.push(0);
    let visited2 = visited.insert(next);
    assert forall|i: int| 0 <= i < stack2.len() implies {
        &&& visited2.contains(#[trigger] stack2[i])
        &&& lists_doubled_offsets(orders2[i]@)
        &&& cursor2[i] <= orders2[i].len()
        &&& forall|j: int|
            0 <= j < cursor2[i] && target_ok(
                m,
                stack2[i],
                (#[trigger] orders2[i][j]).0 as int,
                orders2[i][j].1 as int,
            ) ==> visited2.contains(
                stack2[i].shifted(orders2[i][j].0 as int, orders2[i][j].1 as int),
            )
    } by {
        if i < stack.len() {
            assert(stack2[i] == stack[i]);
            assert(visited2.contains(stack[i]));
        }
    }
    assert forall|c: Point, dx: int, dy: int|
        #[trigger] visited2.contains(c) && !stack2.contains(c) && #[trigger] is_doubled(dx, dy)
            && target_ok(m, c, dx, dy) implies visited2.contains(c.shifted(dx, dy)) by {
        assert(stack2[stack.len() as int] == next);
        if stack.contains(c) {
            let i = choose|i: int| 0 <= i < stack.len() && stack[i] == c;
            assert(stack2[i] == c);
        }
    }
}

/// Taking the last cell off the stack, once all its directions are tried,
/// keeps the stack in order and the cells that left it closed off.
pub proof fn lemma_pop_frame(
    m: MazeView,
    stack: Seq<Point>,
    orders: Seq<Vec<(i32, i32)>>,
    cursor: Seq<usize>,
    visited: Set<Point>,
)
    requires
        frames_ok(m, stack, orders, cursor, visited),
        closed_off(m, stack, visited),
        stack.len() > 0,
        cursor.last() == orders.last().len(),
    ensures
        frames_ok(m, stack.drop_last(), orders.drop_last(), cursor.drop_last(), visited),
        closed_off(m, stack.drop_last(), visited),
{
    reveal(frames_ok);
    reveal(closed_off);
    let top = stack.len() - 1;
    let stack2 = stack.drop_last();
    let orders2 = orders.drop_last();
    let cursor2 = cursor.drop_last();
    assert forall|i: int| 0 <= i < stack2.len() implies {
        &&& visited.contains(#[trigger] stack2[i])
        &&& lists_doubled_offsets(orders2[i]@)
        &&& cursor2[i] <= orders2[i].len()
        &&& forall|j: int|
            0 <= j < cursor2[i] && target_ok(
                m,
                stack2[i],
                (#[trigger] orders2[i][j]).0 as int,
                orders2[i][j].1 as int,
            ) ==> visited.contains(stack2[i].shifted(orders2[i][j].0 as int,
                orders2[i][j].1 as int))
    } by {
        assert(stack2[i] == stack[i]);
        assert(visited.contains(stack[i]));
    }
    assert forall|c: Point, dx: int, dy: int|
        #[trigger] visited.contains(c) && !stack2.contains(c) && #[trigger] is_doubled(dx, dy)
            && target_ok(m, c, dx, dy) implies visited.contains(c.shifted(dx, dy)) by {
        if stack.contains(c) {
            let i = choose|i: int| 0 <= i < stack.len() && stack[i] == c;
            if i < top {
                assert(stack2[i] == c);
            }
            assert(visited.contains(stack[top]));
            assert(lists_doubled_offsets(orders[top]@));
            let j = choose|j: int|
                0 <= j < orders[top]@.len() && (#[trigger] orders[top]@[j]).0 == dx
                    && orders[top]@[j].1
                    == dy;
            assert(orders[top][j].0 == dx);
        }
    }
}

/// A jump of two cells along one axis keeps a cell on the lattice, and the
/// cell between lies between the lattice.
pub proof fn lemma_jump_parity(origin: Point, current: Point, next: Point)
    requires
        on_lattice(origin, current),
        is_doubled(next.x - current.x, next.y - current.y),
    ensures
        on_lattice(origin, next),
        !between_lattice(origin, next),
        between_lattice(
            origin,
            Point {
                x: ((current.x + next.x) / 2) as usize,
                y: ((current.y + next.y) / 2) as usize,
            },
        ),
        current.adjacent(
            Point {
                x: ((current.x + next.x) / 2) as usize,
                y: ((current.y + next.y) / 2) as usize,
            },
        ),
        next.adjacent(
            Point {
                x: ((current.x + next.x) / 2) as usize,
                y: ((current.y + next.y) / 2) as usize,
            },
        ),
{
    let (cx, cy, nx, ny) = (current.x as int, current.y as int, next.x as int, next.y as int);
    assert(nx % 2 == cx % 2 && ny % 2 == cy % 2) by (nonlinear_arith)
        requires
            (nx == cx && (ny == cy + 2 || ny == cy - 2)) || (ny == cy && (nx == cx + 2 || nx == cx
                - 2)),
    ;
    assert(((cx + nx) / 2 == cx + 1 || (cx + nx) / 2 == cx - 1 || (cx + nx) / 2 == cx) && ((cy
        + ny) / 2 == cy + 1 || (cy + ny) / 2 == cy - 1 || (cy + ny) / 2 == cy) && ((cx + nx) / 2
        == cx <==> nx == cx) && ((cy + ny) / 2 == cy <==> ny == cy)) by (nonlinear_arith)
        requires
            (nx == cx && (ny == cy + 2 || ny == cy - 2)) || (ny == cy && (nx == cx + 2 || nx == cx
                - 2)),
    ;
    let mx = (cx + nx) / 2;
    let my = (cy + ny) / 2;
    assert((mx % 2 == cx % 2) == (mx == cx) && (my % 2 == cy % 2) == (my == cy))
        by (nonlinear_arith)
        requires
            mx == cx + 1 || mx == cx - 1 || mx == cx,
            my == cy + 1 || my == cy - 1 || my == cy,
    ;
}

/// The cells that left the stack stay closed off in a maze of the same
/// shape.
pub proof fn lemma_closed_keep(m: MazeView, later: MazeView, stack: Seq<Point>, visited: Set<Point>)
    requires
        closed_off(m, stack, visited),
        later.width == m.width,
        later.height == m.height,
    ensures
        closed_off(later, stack, visited),
{
    reveal(closed_off);
    assert forall|c: Point, dx: int, dy: int|
        #[trigger] visited.contains(c) && !stack.contains(c) && #[trigger] is_doubled(dx, dy)
            && target_ok(later, c, dx, dy) implies visited.contains(c.shifted(dx, dy)) by {
        assert(target_ok(m, c, dx, dy));
    }
}

/// What the last cell of a stack in order is.
proof fn lemma_top_frame(
    m: MazeView,
    origin: Point,
    stack: Seq<Point>,
    orders: Seq<Vec<(i32, i32)>>,
    cursor: Seq<usize>,
    visited: Set<Point>,
    mids: Set<Point>,
)
    requires
        ground(m, origin, visited, mids),
        frames_ok(m, stack, orders, cursor, visited),
        stack.len() > 0,
    ensures
        orders.len() == stack.len(),
        cursor.len() == stack.len(),
        visited.contains(stack.last()),
        m.in_bounds(stack.last()),
        m.wf(),
        m.maze_type == MazeType::Thick,
        lists_doubled_offsets(orders.last()@),
        cursor.last() <= orders.last().len(),
{
    reveal(ground);
    reveal(frames_ok);
    assert(visited.contains(stack[stack.len() - 1]));
}

/// An open cell two steps from a cell that was jumped to was jumped to as
/// well.
proof fn lemma_open_target_visited(
    m: MazeView,
    origin: Point,
    visited: Set<Point>,
    mids: Set<Point>,
    current: Point,
    next: Point,
)
    requires
        ground(m, origin, visited, mids),
        visited.contains(current),
        m.in_bounds(next),
        m.cell(next).is_open(),
        is_doubled(next.x - current.x, next.y - current.y),
    ensures
        visited.contains(next),
{
    assert(on_lattice(origin, current)) by {
        reveal(ground);
    }
    lemma_jump_parity(origin, current, next);
    assert(visited.contains(next)) by {
        reveal(ground);
        assert(m.cell(next).is_open() <==> visited.contains(next) || mids.contains(next));
        if mids.contains(next) {
            assert(between_lattice(origin, next));
        }
    }
}

/// Opening the wall `next`, two steps from a cell that was jumped to, and
/// the cell between them keeps what holds of the cells, and leaves fewer
/// walls.
#[verifier::rlimit(40)]
proof fn lemma_open_passage(
    m: MazeView,
    origin: Point,
    visited: Set<Point>,
    mids: Set<Point>,
    current: Point,
    next: Point,
)
    requires
        ground(m, origin, visited, mids),
        visited.contains(current),
        m.in_bounds(next),
        !m.cell(next).is_open(),
        is_doubled(next.x - current.x, next.y - current.y),
    ensures
        ({
            let middle = Point {
                x: ((current.x + next.x) / 2) as usize,
                y: ((current.y + next.y) / 2) as usize,
            };
            let after = m.marked(middle, CellType::Path).marked(next, CellType::Path);
            &&& m.in_bounds(middle)
            &&& ground(after, origin, visited.insert(next), mids.insert(middle))
            &&& closed_count(after) < closed_count(m)
            &&& !visited.contains(next)
            &&& after.width == m.width
            &&& after.height == m.height
        }),
{
    reveal(ground);
    let middle = Point {
        x: ((current.x + next.x) / 2) as usize,
        y: ((current.y + next.y) / 2) as usize,
    };
    assert(on_lattice(origin, current));
    lemma_jump_parity(origin, current, next);
    m.lemma_index_in_range(current);
    m.lemma_index_in_range(next);
    assert(m.in_bounds(middle));
    m.lemma_index_in_range(middle);
    assert(m.cell(current).is_open());
    lemma_carve_keeps_connected(m, origin, current, middle, CellType::Path);
    m.lemma_marked(middle, CellType::Path);
    let m1 = m.marked(middle, CellType::Path);
    lemma_carve_keeps_connected(m1, origin, middle, next, CellType::Path);
    m1.lemma_marked(next, CellType::Path);
    lemma_open_lowers_closed_count(m, middle, CellType::Path);
    lemma_open_lowers_closed_count(m1, next, CellType::Path);
    let after = m1.marked(next, CellType::Path);
    let visited2 = visited.insert(next);
    let mids2 = mids.insert(middle);
    assert forall|p: Point| after.in_bounds(p) implies {
        &&& (#[trigger] after.cell(p)) == MazeCell::new_spec(CellType::Wall) || after.cell(p)
            == MazeCell::new_spec(CellType::Path)
        &&& after.cell(p).is_open() <==> visited2.contains(p) || mids2.contains(p)
    } by {
        if p == next {
        } else if p == middle {
            assert(after.cell(p) == m1.cell(p));
        } else {
            assert(after.cell(p) == m1.cell(p));
            assert(m1.cell(p) == m.cell(p));
        }
    }
    assert forall|v: Point| visited2.contains(v) && v != origin
        implies #[trigger] after.has_open_neighbor(
        v,
    ) by {
        if v == next {
            assert(after.in_bounds(middle) && next.adjacent(middle)
                && after.passable(next, middle));
        } else {
            assert(m.has_open_neighbor(v));
            let q = choose|q: Point| m.in_bounds(q) && v.adjacent(q) && #[trigger] m.passable(v, q);
            m.lemma_index_in_range(q);
            if q != next && q != middle {
                assert(after.cell(q) == m1.cell(q));
                assert(m1.cell(q) == m.cell(q));
            }
            assert(after.in_bounds(q) && v.adjacent(q) && after.passable(v, q));
        }
    }
}

/// Opens the wall `next`, two steps from the open cell `current`, and the
/// cell between them, and sends a snapshot.
fn open_passage(
    maze: &mut Maze,
    sink: &mut SnapshotSink,
    current: Point,
    next: Point,
    Ghost(origin): Ghost<Point>,
    Ghost(visited): Ghost<Set<Point>>,
    Ghost(mids): Ghost<Set<Point>>,
    Ghost(frames0): Ghost<Seq<Frame>>,
) -> (middle: Ghost<Point>)
    requires
        old(maze).wf(),
        ground(old(maze)@, origin, visited, mids),
        visited.contains(current),
        old(maze)@.in_bounds(current),
        old(maze)@.in_bounds(next),
        !old(maze)@.cell(next).is_open(),
        is_doubled(next.x - current.x, next.y - current.y),
        frames_grow(frames0, old(sink)@),
    ensures
        final(maze).wf(),
        final(maze).width == old(maze).width,
        final(maze).height == old(maze).height,
        final(maze).maze_type == old(maze).maze_type,
        final(maze)@.original == old(maze)@.original,
        ground(final(maze)@, origin, visited.insert(next), mids.insert(middle@)),
        closed_count(final(maze)@) < closed_count(old(maze)@),
        !visited.contains(next),
        final(sink).follows(old(sink)),
        frames_grow(frames0, final(sink)@),
{
    proof {
        lemma_open_passage(maze@, origin, visited, mids, current, next);
    }
    let middle = Point { x: (current.x + next.x) / 2, y: (current.y + next.y) / 2 };
    maze.mark_cell_as_path(middle);
    maze.mark_cell_as_path(next);
    sink.record(maze, Ghost(frames0));
    Ghost(middle)
}

impl Carver {
    /// Tries the next direction of the last cell of the stack. Where the
    /// cell two steps away is still a wall, opens the cell between and that
    /// cell, sends a snapshot, and goes on from there.
    #[verifier::rlimit(40)]
    fn try_next(
        &mut self,
        maze: &mut Maze,
        sink: &mut SnapshotSink,
        rng: &mut StdRng,
        Ghost(origin): Ghost<Point>,
        Ghost(frames0): Ghost<Seq<Frame>>,
    )
        requires
            old(maze).wf(),
            old(self).inv(old(maze)@, origin),
            old(self).stack@.len() > 0,
            old(self).cursor@.last() < old(self).orders@.last().len(),
            frames_grow(frames0, old(sink)@),
        ensures
            final(maze).wf(),
            final(maze).width == old(maze).width,
            final(maze).height == old(maze).height,
            final(maze).maze_type == old(maze).maze_type,
            final(maze)@.original == old(maze)@.original,
            final(self).inv(final(maze)@, origin),
            final(self).further_than(final(maze)@, old(self), old(maze)@),
            final(sink).follows(old(sink)),
            frames_grow(frames0, final(sink)@),
    {
        proof {
            lemma_top_frame(
                maze@,
                origin,
                self.stack@,
                self.orders@,
                self.cursor@,
                self.visited@,
                self.mids@,
            );
        }
        let top = self.stack.len() - 1;
        let current = self.stack[top];
        let k = self.cursor[top];
        let (dx, dy) = self.orders[top][k];
        let ghost before = *old(self);
        let ghost m0 = maze@;
        let ghost visited0 = self.visited@;
        proof {
            assert(is_doubled(
                before.orders@[top as int][k as int].0 as int,
                before.orders@[top as int][k as int].1 as int,
            ));
            m0.lemma_index_in_range(current);
        }
        match maze.neighbor(current, dx, dy) {
            Some(next) => {
                if maze.is_not_passable(current, next) {
                    let middle = open_passage(
                        maze,
                        sink,
                        current,
                        next,
                        Ghost(origin),
                        Ghost(self.visited@),
                        Ghost(self.mids@),
                        Ghost(frames0),
                    );
                    let order = shuffled_doubled_directions(rng);
                    proof {
                        self.visited@ = visited0.insert(next);
                        self.mids@ = self.mids@.insert(middle@);
                        lemma_frames_keep(
                            m0,
                            maze@,
                            before.stack@,
                            before.orders@,
                            before.cursor@,
                            visited0,
                            self.visited@,
                        );
                        lemma_bump(
                            maze@,
                            before.stack@,
                            before.orders@,
                            before.cursor@,
                            self.visited@,
                            top as int,
                        );
                    }
                    self.cursor[top] = k + 1;
                    proof {
                        lemma_closed_keep(m0, maze@, before.stack@, visited0);
                        lemma_push_frame(
                            maze@,
                            self.stack@,
                            self.orders@,
                            self.cursor@,
                            visited0,
                            next,
                            order,
                        );
                    }
                    self.stack.push(next);
                    self.orders.push(order);
                    self.cursor.push(0);
                } else {
                    proof {
                        m0.lemma_index_in_range(next);
                        lemma_open_target_visited(
                            m0,
                            origin,
                            visited0,
                            self.mids@,
                            current,
                            next,
                        );
                        lemma_bump(
                            m0,
                            before.stack@,
                            before.orders@,
                            before.cursor@,
                            visited0,
                            top as int,
                        );
                    }
                    self.cursor[top] = k + 1;
                }
            },
            None => {
                proof {
                    lemma_bump(
                        m0,
                        before.stack@,
                        before.orders@,
                        before.cursor@,
                        visited0,
                        top as int,
                    );
                }
                self.cursor[top] = k + 1;
            },
        }
    }

    /// Backs out of the last cell of the stack, whose directions are all
    /// tried.
    fn back_out(&mut self, Ghost(m): Ghost<MazeView>, Ghost(origin): Ghost<Point>)
        requires
            old(self).inv(m, origin),
            old(self).stack@.len() > 0,
            old(self).cursor@.last() == old(self).orders@.last().len(),
        ensures
            final(self).inv(m, origin),
            final(self).further_than(m, old(self), m),
    {
        proof {
            lemma_top_frame(
                m,
                origin,
                self.stack@,
                self.orders@,
                self.cursor@,
                self.visited@,
                self.mids@,
            );
            lemma_pop_frame(m, self.stack@, self.orders@, self.cursor@, self.visited@);
        }
        self.stack.pop();
        self.orders.pop();
        self.cursor.pop();
    }
}

/// Once the carving is over, the column of the origin was jumped along:
/// every cell an even number of rows above the origin was jumped to.
proof fn lemma_column(m: MazeView, origin: Point, visited: Set<Point>, mids: Set<Point>, k: nat)
    requires
        ground(m, origin, visited, mids),
        closed_off(m, Seq::<Point>::empty(), visited),
        2 * k <= origin.y,
    ensures
        visited.contains(Point { x: origin.x, y: (origin.y - 2 * k) as usize }),
    decreases k,
{
    if k == 0 {
        reveal(ground);
    } else {
        lemma_column(m, origin, visited, mids, (k - 1) as nat);
        let below = Point { x: origin.x, y: (origin.y - 2 * (k - 1)) as usize };
        reveal(ground);
        reveal(closed_off);
        assert(m.in_bounds(below));
        assert(!Seq::<Point>::empty().contains(below));
        assert(is_doubled(0, -2));
        assert(target_ok(m, below, 0, -2));
        assert(below.shifted(0, -2) == Point { x: origin.x, y: (origin.y - 2 * k) as usize });
    }
}

/// Once the carving from an origin inside the outer ring is over, some
/// cell on an edge of the outer ring has an open neighbour.
pub proof fn lemma_carved_has_exit(m: MazeView, origin: Point, visited: Set<Point>,
    mids: Set<Point>)
    requires
        ground(m, origin, visited, mids),
        closed_off(m, Seq::<Point>::empty(), visited),
        1 <= origin.x,
        origin.x + 1 < m.width,
        1 <= origin.y,
    ensures
        exists|p: Point, q: Point|
            #![trigger m.on_boundary_edge(p), m.cell(q)]
            m.on_boundary_edge(p) && m.in_bounds(q) && p.adjacent(q) && m.cell(q).is_open(),
{
    let k = (origin.y / 2) as nat;
    lemma_column(m, origin, visited, mids, k);
    let top = Point { x: origin.x, y: (origin.y - 2 * k) as usize };
    reveal(ground);
    assert(m.in_bounds(top));
    assert(m.cell(top).is_open() <==> visited.contains(top) || mids.contains(top));
    if top.y == 1 {
        let p = Point { x: origin.x, y: 0 };
        assert(m.on_boundary_edge(p) && m.in_bounds(top) && p.adjacent(top) && m.cell(
            top,
        ).is_open());
    } else {
        assert(top.y == 0);
        assert(top != origin);
        assert(m.has_open_neighbor(top));
        let q = choose|q: Point| m.in_bounds(q) && top.adjacent(q) && #[trigger] m.passable(top, q);
        assert(m.on_boundary_edge(top) && m.in_bounds(q) && top.adjacent(q) && m.cell(q).is_open());
    }
}

/// What the cells are once the carving is over: walls and open paths
/// without walls on their edges, the origin open, and every open cell
/// within reach of the origin.
pub proof fn lemma_carved_cells(m: MazeView, origin: Point, visited: Set<Point>, mids: Set<Point>)
    requires
        ground(m, origin, visited, mids),
    ensures
        m.wf(),
        m.connected_from(origin),
        m.cell(origin) == MazeCell::new_spec(CellType::Path),
        forall|p: Point|
            m.in_bounds(p) ==> (#[trigger] m.cell(p)) == MazeCell::new_spec(CellType::Wall)
                || m.cell(p) == MazeCell::new_spec(CellType::Path),
{
    reveal(ground);
    assert(m.cell(origin).is_open() <==> visited.contains(origin) || mids.contains(origin));
}

/// Whether every cell an odd number of columns and of rows from `origin`
/// is a wall.
#[verifier::opaque]
pub open spec fn lattice_walls(m: MazeView, origin: Point) -> bool {
    forall|p: Point|
        m.in_bounds(p) && off_lattice(origin, p) ==> (#[trigger] m.cell(p)) == MazeCell::new_spec(
            CellType::Wall,
        )
}

/// The carving opens no cell an odd number of columns and of rows from
/// its origin.
pub proof fn lemma_carved_walls(m: MazeView, origin: Point, visited: Set<Point>, mids: Set<Point>)
    requires
        ground(m, origin, visited, mids),
    ensures
        lattice_walls(m, origin),
{
    reveal(ground);
    reveal(lattice_walls);
    assert forall|p: Point| m.in_bounds(p) && off_lattice(origin, p) implies (#[trigger] m.cell(
        p,
    )) == MazeCell::new_spec(CellType::Wall) by {
        assert(m.cell(p).is_open() <==> visited.contains(p) || mids.contains(p));
    }
}

/// Carves passages into a thick maze of walls, depth first, from the open
/// cell `start`: jumps two cells at a time in a random order of directions,
/// to cells that are still walls, and opens the cell between. Afterwards
/// every open cell can be reached from `start`, and from every cell that
/// the carving jumped to, each cell two steps away was jumped to as well.
#[verifier::rlimit(40)]
pub(crate) fn carve_passages(
    maze: &mut Maze,
    start: Point,
    rng: &mut StdRng,
    sink: &mut SnapshotSink,
    Ghost(frames0): Ghost<Seq<Frame>>,
) -> (carver: Carver)
    requires
        old(maze).wf(),
        old(maze).maze_type == MazeType::Thick,
        old(maze)@.in_bounds(start),
        forall|p: Point|
            old(maze)@.in_bounds(p) ==> #[trigger] old(maze)@.cell(p) == if p == start {
                MazeCell::new_spec(CellType::Path)
            } else {
                MazeCell::new_spec(CellType::Wall)
            },
        frames_grow(frames0, old(sink)@),
    ensures
        final(maze).wf(),
        final(maze).width == old(maze).width,
        final(maze).height == old(maze).height,
        final(maze).maze_type == old(maze).maze_type,
        final(maze)@.original == old(maze)@.original,
        carver.inv(final(maze)@, start),
        carver.stack@.len() == 0,
        final(sink).follows(old(sink)),
        frames_grow(frames0, final(sink)@),
{
    let first_order = shuffled_doubled_directions(rng);
    let mut carver = Carver {
        stack: Vec::new(),
        orders: Vec::new(),
        cursor: Vec::new(),
        visited: Ghost(Set::<Point>::empty().insert(start)),
        mids: Ghost(Set::<Point>::empty()),
    };
    carver.stack.push(start);
    carver.orders.push(first_order);
    carver.cursor.push(0);
    proof {
        reveal(ground);
        reveal(frames_ok);
        reveal(closed_off);
        let m = maze@;
        m.lemma_index_in_range(start);
        assert(m.connected_from(start)) by {
            assert forall|p: Point| m.in_bounds(p) && #[trigger] m.cell(p).is_open()
                implies m.reachable(
                start,
                p,
            ) by {
                assert(p == start);
                assert(m.walk_between(seq![start], start, start));
            }
        }
        assert(carver.stack@[0] == start);
        assert(closed_off(m, carver.stack@, carver.visited@)) by {
            assert forall|c: Point, dx: int, dy: int|
                #[trigger] carver.visited@.contains(c) && !carver.stack@.contains(c)
                    && #[trigger] is_doubled(
                    dx,
                    dy,
                ) && target_ok(m, c, dx, dy) implies carver.visited@.contains(
                c.shifted(dx, dy),
            ) by {
                assert(carver.stack@[0] == c);
            }
        }
    }
    while carver.stack.len() > 0
        invariant
            maze.wf(),
            maze.width == old(maze).width,
            maze.height == old(maze).height,
            maze.maze_type == old(maze).maze_type,
            maze@.original == old(maze)@.original,
            carver.inv(maze@, start),
            sink.follows(old(sink)),
            frames_grow(frames0, sink@),
        decreases closed_count(maze@), carver.stack@.len(), carver.untried(),
    {
        proof {
            lemma_top_frame(
                maze@,
                start,
                carver.stack@,
                carver.orders@,
                carver.cursor@,
                carver.visited@,
                carver.mids@,
            );
        }
        let top = carver.stack.len() - 1;
        if carver.cursor[top] < carver.orders[top].len() {
            carver.try_next(maze, sink, rng, Ghost(start), Ghost(frames0));
        } else {
            carver.back_out(Ghost(maze@), Ghost(start));
        }
    }
    carver
}

/// The walls between the corridors stand once the entrance and the exit
/// are tagged.
pub proof fn lemma_walls_stand(
    carved: MazeView,
    tagged: MazeView,
    made: MazeView,
    entrance: Point,
    exit: Point,
)
    requires
        carved.in_bounds(entrance),
        tagged.width == carved.width,
        tagged.height == carved.height,
        made.width == carved.width,
        made.height == carved.height,
        made.exit() == Some(exit),
        lattice_walls(carved, entrance),
        carved.wf(),
        tagged == carved.marked(entrance, CellType::Entrance),
        forall|p: Point|
            carved.in_bounds(p) && p != exit ==> #[trigger] made.cell(p) == tagged.cell(p),
    ensures
        walls_between(made, entrance),
{
    reveal(lattice_walls);
    carved.lemma_marked(entrance, CellType::Entrance);
    assert forall|p: Point|
        made.in_bounds(p) && off_lattice(entrance, p) && Some(p) != made.exit() implies (
    #[trigger] made.cell(p)) == MazeCell::new_spec(CellType::Wall) by {
        assert(made.cell(p) == tagged.cell(p));
        assert(tagged.cell(p) == carved.cell(p));
    }
}

} // verus!
