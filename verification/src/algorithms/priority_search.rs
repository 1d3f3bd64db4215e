use vstd::prelude::*;
use super::directions::{lists_unit_offsets, Movements};
use super::grid::{count_false, lemma_count_false_update, lemma_total_update, total, Grid};
use super::pathfinding::{
    frames_extend, frames_up_to_date, lemma_frames_extend_start, lemma_marks_only_reflexive,
    lemma_no_route_cells, lemma_route_cells, marks_only, route_marked, searchable,
    shortest_search_result, steps_after, visited_cell, PathfindingStats, SnapshotSink,
};
use super::point::Point;
use super::search::{
    lemma_route_found, lemma_search_exhausted, lemma_tree_walk, tag_and_show, tag_route, tree_inv,
    tree_walk,
};
use crate::maze::{Maze, MazeView};
use crate::maze_cell::CellType;

verus! {

/// An entry of the open set of a best-first search: a cell, the cost `g` of
/// the route by which it was reached, and the estimate `h` of what is left
/// to the goal.
#[derive(Clone, Copy, PartialEq, Eq, Debug, Structural)]
pub struct Node {
    pub point: Point,
    pub g: usize,
    pub h: usize,
}

impl Node {
    /// The priority of the entry: the smaller, the sooner it is expanded.
    pub open spec fn f(self) -> int {
        self.g + self.h
    }
}

/// The Manhattan distance between two cells.
pub fn manhattan_distance(current: &Point, goal: &Point) -> (h: usize)
    requires
        current.x <= i32::MAX,
        current.y <= i32::MAX,
        goal.x <= i32::MAX,
        goal.y <= i32::MAX,
    ensures
        h == current.manhattan(*goal),
{
    let dx = if current.x >= goal.x {
        current.x - goal.x
    } else {
        goal.x - current.x
    };
    let dy = if current.y >= goal.y {
        current.y - goal.y
    } else {
        goal.y - current.y
    };
    dx + dy
}

/// The position of the first entry of `open` that has the least priority.
pub fn least_index(open: &Vec<Node>) -> (best: usize)
    requires
        open.len() > 0,
        forall|i: int| 0 <= i < open.len() ==> (#[trigger] open[i]).g + open[i].h <= u64::MAX,
    ensures
        best < open.len(),
        forall|i: int| 0 <= i < open.len() ==> open[best as int].f() <= (#[trigger] open[i]).f(),
        forall|i: int| 0 <= i < best ==> open[best as int].f() < (#[trigger] open[i]).f(),
{
    let mut best: usize = 0;
    let mut best_f: u64 = open[0].g as u64 + open[0].h as u64;
    let mut i: usize = 1;
    while i < open.len()
        invariant
            1 <= i <= open.len(),
            best < i,
            best_f == open[best as int].f(),
            forall|k: int| 0 <= k < open.len() ==> (#[trigger] open[k]).g + open[k].h <= u64::MAX,
            forall|k: int| 0 <= k < i ==> open[best as int].f() <= (#[trigger] open[k]).f(),
            forall|k: int| 0 <= k < best ==> open[best as int].f() < (#[trigger] open[k]).f(),
        decreases open.len() - i,
    {
        let f = open[i].g as u64 + open[i].h as u64;
        if f < best_f {
            best = i;
            best_f = f;
        }
        i += 1;
    }
    best
}

/// Whether `open` holds an entry for `p` with cost `g`.
pub open spec fn has_entry(open: Seq<Node>, p: Point, g: int) -> bool {
    exists|i: int| 0 <= i < open.len() && (#[trigger] open[i]).point == p && open[i].g == g
}

/// Whether `open` holds an entry for `p`.
pub open spec fn queued(open: Seq<Node>, p: Point) -> bool {
    exists|i: int| 0 <= i < open.len() && (#[trigger] open[i]).point == p
}

/// The labelled cells for which `open` holds an entry with their label as
/// its cost: they are yet to be expanded with that label.
pub open spec fn pending(label: Map<Point, nat>, open: Seq<Node>) -> Set<Point> {
    Set::new(|p: Point| label.dom().contains(p) && has_entry(open, p, label[p] as int))
}

proof fn lemma_entry_push(open: Seq<Node>, node: Node, p: Point, g: int)
    ensures
        has_entry(open, p, g) ==> has_entry(open.push(node), p, g),
        queued(open, p) ==> queued(open.push(node), p),
        has_entry(open.push(node), node.point, node.g as int),
        queued(open.push(node), node.point),
{
    let longer = open.push(node);
    if has_entry(open, p, g) {
        let i = choose|i: int| 0 <= i < open.len() && (#[trigger] open[i]).point == p
            && open[i].g == g;
        assert(longer[i].point == p && longer[i].g == g);
    }
    if queued(open, p) {
        let i = choose|i: int| 0 <= i < open.len() && (#[trigger] open[i]).point == p;
        assert(longer[i].point == p);
    }
    assert(longer[open.len() as int] == node);
}

proof fn lemma_entry_remove(open: Seq<Node>, at: int, p: Point, g: int)
    requires
        0 <= at < open.len(),
    ensures
        has_entry(open, p, g) && !(open[at].point == p && open[at].g == g) ==> has_entry(
            open.remove(at),
            p,
            g,
        ),
        queued(open, p) && open[at].point != p ==> queued(open.remove(at), p),
        has_entry(open.remove(at), p, g) ==> has_entry(open, p, g),
{
    let shorter = open.remove(at);
    if has_entry(open, p, g) && !(open[at].point == p && open[at].g == g) {
        let i = choose|i: int| 0 <= i < open.len() && (#[trigger] open[i]).point == p
            && open[i].g == g;
        if i < at {
            assert(shorter[i] == open[i]);
        } else {
            assert(shorter[i - 1] == open[i]);
        }
    }
    if queued(open, p) && open[at].point != p {
        let i = choose|i: int| 0 <= i < open.len() && (#[trigger] open[i]).point == p;
        if i < at {
            assert(shorter[i] == open[i]);
        } else {
            assert(shorter[i - 1] == open[i]);
        }
    }
    if has_entry(shorter, p, g) {
        let i = choose|i: int|
            0 <= i < shorter.len() && (#[trigger] shorter[i]).point == p && shorter[i].g == g;
        if i < at {
            assert(open[i] == shorter[i]);
        } else {
            assert(open[i + 1] == shorter[i]);
        }
    }
}

/// The estimate of what is left from `p` to `goal`: their Manhattan
/// distance where the search is guided, else 0.
pub open spec fn estimate(guided: bool, p: Point, goal: Point) -> nat {
    if guided {
        p.manhattan(goal)
    } else {
        0
    }
}

/// Whether every expanded cell has a label that, with its estimate, stays
/// within `bound`.
#[verifier::opaque]
pub open spec fn expanded_within(
    label: Map<Point, nat>,
    expanded: Set<Point>,
    guided: bool,
    goal: Point,
    bound: int,
) -> bool {
    forall|p: Point| #[trigger]
        expanded.contains(p) ==> label.dom().contains(p) && label[p] + estimate(guided, p, goal)
            <= bound
}

/// Whether no entry of `open` has a priority below `bound`.
#[verifier::opaque]
pub open spec fn open_beyond(open: Seq<Node>, bound: int) -> bool {
    forall|i: int| 0 <= i < open.len() ==> (#[trigger] open[i]).f() >= bound
}

/// Whether the search went no further than it had to: each cell that is
/// left tagged `Visited` can be reached from the entrance by a chain of
/// moves that, with the estimate of what is left from the cell to the exit,
/// is no longer than any route from the entrance to the exit.
pub open spec fn visits_bounded(before: MazeView, after: MazeView, guided: bool) -> bool {
    forall|p: Point, route: Seq<Point>|
        after.in_bounds(p) && (#[trigger] after.cell(p)).cell_type == CellType::Visited
            && #[trigger] before.walk_between(route, before.entrance()->0, before.exit()->0)
            ==> exists|moves: nat| #[trigger]
            before.within(before.entrance()->0, p, moves) && moves + estimate(
                guided,
                p,
                before.exit()->0,
            ) + 1 <= route.len()
}

/// Taking the entry of least priority out of the open set raises the bound
/// to its priority.
proof fn lemma_least_taken(open: Seq<Node>, best: int, bound: int)
    requires
        open_beyond(open, bound),
        0 <= best < open.len(),
        forall|i: int| 0 <= i < open.len() ==> open[best].f() <= (#[trigger] open[i]).f(),
    ensures
        bound <= open[best].f(),
        open_beyond(open.remove(best), open[best].f()),
{
    reveal(open_beyond);
    let shorter = open.remove(best);
    assert forall|i: int| 0 <= i < shorter.len() implies (#[trigger] shorter[i]).f()
        >= open[best].f() by {
        if i < best {
            assert(shorter[i] == open[i]);
        } else {
            assert(shorter[i] == open[i + 1]);
        }
    }
}

/// An entry with a priority of at least the bound can join the open set.
proof fn lemma_entry_beyond(open: Seq<Node>, entry: Node, bound: int)
    requires
        open_beyond(open, bound),
        entry.f() >= bound,
    ensures
        open_beyond(open.push(entry), bound),
{
    reveal(open_beyond);
    let longer = open.push(entry);
    assert forall|i: int| 0 <= i < longer.len() implies (#[trigger] longer[i]).f() >= bound by {
        if i < open.len() {
            assert(longer[i] == open[i]);
        }
    }
}

/// The expanded cells stay within a bound that is raised.
pub proof fn lemma_bound_raised(
    label: Map<Point, nat>,
    expanded: Set<Point>,
    guided: bool,
    goal: Point,
    bound: int,
    higher: int,
)
    requires
        expanded_within(label, expanded, guided, goal, bound),
        bound <= higher,
    ensures
        expanded_within(label, expanded, guided, goal, higher),
{
    reveal(expanded_within);
}

/// A cell whose label and estimate stay within the bound can join the
/// expanded cells.
pub proof fn lemma_expanded_more(
    label: Map<Point, nat>,
    expanded: Set<Point>,
    guided: bool,
    goal: Point,
    bound: int,
    p: Point,
)
    requires
        expanded_within(label, expanded, guided, goal, bound),
        label.dom().contains(p),
        label[p] + estimate(guided, p, goal) <= bound,
    ensures
        expanded_within(label, expanded.insert(p), guided, goal, bound),
{
    reveal(expanded_within);
}

/// A smaller label for a cell keeps the expanded cells within the bound.
pub proof fn lemma_label_lowered(
    label: Map<Point, nat>,
    expanded: Set<Point>,
    guided: bool,
    goal: Point,
    bound: int,
    p: Point,
    lower: nat,
)
    requires
        expanded_within(label, expanded, guided, goal, bound),
        label.dom().contains(p) ==> lower <= label[p],
    ensures
        expanded_within(label.insert(p, lower), expanded, guided, goal, bound),
{
    reveal(expanded_within);
    let after = label.insert(p, lower);
    assert forall|q: Point| #[trigger] expanded.contains(q) implies after.dom().contains(q)
        && after[q] + estimate(guided, q, goal) <= bound by {
        assert(label.dom().contains(q));
    }
}

/// The entry of least priority for a cell that is yet to be expanded with
/// its label carries that label as its cost.
proof fn lemma_least_is_fresh(
    label: Map<Point, nat>,
    open: Seq<Node>,
    best: int,
)
    requires
        0 <= best < open.len(),
        forall|i: int| 0 <= i < open.len() ==> open[best].f() <= (#[trigger] open[i]).f(),
        forall|i: int|
            0 <= i < open.len() && (#[trigger] open[i]).point == open[best].point ==> open[i].h
                == open[best].h,
        label.dom().contains(open[best].point),
        label[open[best].point] <= open[best].g,
        pending(label, open).contains(open[best].point),
    ensures
        open[best].g == label[open[best].point],
{
    let p = open[best].point;
    let k = choose|k: int|
        0 <= k < open.len() && (#[trigger] open[k]).point == p && open[k].g == label[p] as int;
    assert(open[best].f() <= open[k].f());
}

/// What the tags say once the route is marked: the search went no further
/// than it had to.
pub proof fn lemma_visits_bounded(
    m: MazeView,
    after: MazeView,
    entrance: Point,
    exit: Point,
    label: Map<Point, nat>,
    came_from: Grid<Option<Point>>,
    expanded: Set<Point>,
    guided: bool,
    bound: int,
)
    requires
        m.wf(),
        m.unmarked(),
        m.entrance() == Some(entrance),
        m.exit() == Some(exit),
        after.width == m.width,
        after.height == m.height,
        tree_inv(m, entrance, label, came_from),
        expanded_within(label, expanded, guided, exit, bound),
        forall|route: Seq<Point>| #[trigger]
            m.walk_between(route, entrance, exit) ==> bound + 1 <= route.len(),
        forall|p: Point|
            m.in_bounds(p) && (#[trigger] after.cell(p)).cell_type == CellType::Visited
                ==> expanded.contains(p),
    ensures
        visits_bounded(m, after, guided),
{
    reveal(expanded_within);
    assert forall|p: Point, route: Seq<Point>|
        after.in_bounds(p) && (#[trigger] after.cell(p)).cell_type == CellType::Visited
            && #[trigger] m.walk_between(route, entrance, exit) implies exists|moves: nat|
        #[trigger] m.within(entrance, p, moves) && moves + estimate(guided, p, exit) + 1
            <= route.len() by {
        assert(expanded.contains(p));
        lemma_tree_walk(m, entrance, label, came_from, p);
        let chain = tree_walk(entrance, label, came_from, p);
        let moves = (chain.len() - 1) as nat;
        assert(m.within(entrance, p, moves));
    }
}

/// Where no route leads to the exit, no search went further than it had
/// to.
pub proof fn lemma_no_route_bounded(m: MazeView, after: MazeView, guided: bool)
    requires
        !m.reachable(m.entrance()->0, m.exit()->0),
    ensures
        visits_bounded(m, after, guided),
{
}

/// No more entries are `false` than there are entries.
pub proof fn lemma_count_false_bound(s: Seq<bool>)
    ensures
        count_false(s) <= s.len(),
    decreases s.len(),
{
    if s.len() > 0 {
        lemma_count_false_bound(s.drop_last());
    }
}

/// Best-first search from the entrance of `maze` to its exit. The open set
/// is ordered by cost plus estimate. With `guided` the estimate is the
/// Manhattan distance to the exit, without it the estimate is 0. Each
/// expansion counts one step in `stats`, up to the largest number that fits;
/// with `report` the snapshots of the expansions carry the counters.
#[verifier::rlimit(40)]
pub fn priority_search(
    maze: &mut Maze,
    sink: &mut SnapshotSink,
    guided: bool,
    stats: &mut PathfindingStats,
    report: bool,
)
    requires
        searchable(old(maze)),
    ensures
        final(maze).wf(),
        final(maze).width == old(maze).width,
        final(maze).height == old(maze).height,
        final(maze).maze_type == old(maze).maze_type,
        shortest_search_result(old(maze)@, final(maze)@),
        visits_bounded(old(maze)@, final(maze)@, guided),
        final(sink).extends(old(sink), old(maze)@),
        final(sink)@.len() > old(sink)@.len(),
        final(sink).shows(final(maze)),
        final(maze)@.final_path_cells().finite(),
        final(sink)@.len() >= old(sink)@.len() + final(maze)@.final_path_cells().len(),
        final(stats).steps == steps_after(
            old(stats).steps,
            (final(sink)@.len() - old(sink)@.len() - final(maze)@.final_path_cells().len()) as nat,
        ),
{
    let ghost m0 = maze@;
    let entrance = maze.get_entrance().unwrap();
    let exit = maze.get_exit().unwrap();
    proof {
        m0.lemma_index_in_range(entrance);
        m0.lemma_index_in_range(exit);
        lemma_marks_only_reflexive(m0);
    }
    assert(maze.cells.len() == maze.width * maze.height);
    proof {
        lemma_frames_extend_start(sink@, m0);
    }
    let ghost cell_count = maze.width * maze.height;
    assert(cell_count <= 0x7fff_ffff * 0x7fff_ffff) by (nonlinear_arith)
        requires
            cell_count == maze.width * maze.height,
            maze.width <= 0x7fff_ffff,
            maze.height <= 0x7fff_ffff,
    ;
    let dirs = Movements::direction_list();
    let mut open: Vec<Node> = Vec::new();
    let mut seen: Grid<bool> = Grid::new(maze.width, maze.height, false);
    let mut g: Grid<usize> = Grid::new(maze.width, maze.height, 0);
    let mut came_from: Grid<Option<Point>> = Grid::new(maze.width, maze.height, None);
    proof {
        seen.lemma_index(entrance);
        lemma_count_false_update(seen.cells@, entrance.y * seen.width + entrance.x);
        lemma_count_false_bound(seen.cells@);
    }
    seen.set(entrance, true);
    let first_h = if guided {
        manhattan_distance(&entrance, &exit)
    } else {
        0
    };
    open.push(Node { point: entrance, g: 0, h: first_h });
    let ghost mut label: Map<Point, nat> = Map::<Point, nat>::empty().insert(entrance, 0nat);
    let ghost mut expanded: Set<Point> = Set::<Point>::empty();
    let mut found = false;
    let ghost mut stepped = false;
    let ghost mut expansions: nat = 0;
    let ghost mut bound: int = 0;
    proof {
        assert(open@[0].point == entrance && open@[0].g == 0);
        assert(has_entry(open@, entrance, 0));
        assert(queued(open@, entrance));
        assert(expanded_within(label, expanded, guided, exit, bound)) by {
            reveal(expanded_within);
        }
        assert(open_beyond(open@, bound)) by {
            reveal(open_beyond);
        }
    }
    while !found && open.len() > 0
        invariant
            m0.wf(),
            m0 == old(maze)@,
            searchable(old(maze)),
            m0.entrance() == Some(entrance),
            m0.exit() == Some(exit),
            m0.in_bounds(exit),
            m0.markable(entrance),
            cell_count == m0.width * m0.height,
            cell_count <= 0x7fff_ffff * 0x7fff_ffff,
            maze.wf(),
            maze.width == old(maze).width,
            maze.height == old(maze).height,
            maze.maze_type == old(maze).maze_type,
            maze@.same_topology(m0),
            marks_only(m0, maze@),
            lists_unit_offsets(dirs@),
            seen.wf(),
            seen.width == maze.width,
            seen.height == maze.height,
            g.wf(),
            g.width == maze.width,
            g.height == maze.height,
            came_from.wf(),
            came_from.width == maze.width,
            came_from.height == maze.height,
            tree_inv(m0, entrance, label, came_from),
            forall|p: Point| #[trigger] label.dom().contains(p)
                ==> seen.at(p) && label[p] == g.at(p),
            forall|p: Point| m0.in_bounds(p) && #[trigger] seen.at(p) ==> label.dom().contains(p),
            forall|p: Point| #[trigger]
                label.dom().contains(p) ==> label[p] + 1 + count_false(seen.cells@) <= cell_count,
            forall|p: Point| #[trigger] expanded.contains(p) ==> label.dom().contains(p),
            forall|p: Point|
                label.dom().contains(p) && !expanded.contains(p) ==> #[trigger] queued(open@, p),
            forall|i: int|
                0 <= i < open@.len() ==> {
                    &&& label.dom().contains((#[trigger] open@[i]).point)
                    &&& label[open@[i].point] <= open@[i].g
                    &&& open@[i].g < cell_count
                    &&& open@[i].h == if guided {
                        open@[i].point.manhattan(exit)
                    } else {
                        0
                    }
                },
            !found ==> m0.settled_except(label, pending(label, open@)),
            forall|p: Point|
                m0.in_bounds(p) ==> #[trigger] maze@.cell(p) == visited_cell(m0, expanded, p),
            found ==> label.dom().contains(exit) && forall|other: Seq<Point>| #[trigger]
                m0.walk_between(other, entrance, exit) ==> label[exit] + 1 <= other.len(),
            found ==> bound <= label[exit],
            !found ==> !expanded.contains(exit),
            expanded_within(label, expanded, guided, exit, bound),
            open_beyond(open@, bound),
            !found && label.dom().contains(exit) ==> pending(label, open@).contains(exit),
            sink.follows(old(sink)),
            frames_extend(old(sink)@, sink@, m0),
            frames_up_to_date(old(sink)@, sink@, m0, maze@),
            stats.steps == steps_after(old(stats).steps, expansions),
            sink@.len() == old(sink)@.len() + expansions,
            stepped || (!found && open@.len() > 0),
            stepped ==> sink@.len() > old(sink)@.len() && sink.shows(maze),
        decreases
                (if found {
                    0int
                } else {
                    1int
                }),
                count_false(seen.cells@),
                total(g.cells@),
                open@.len(),
    {
        let ghost open_before = open@;
        let best = least_index(&open);
        let node = open.remove(best);
        let current = node.point;
        assert(node == open_before[best as int]);
        assert(label.dom().contains(current));
        let ghost fresh = node.g == label[current];
        proof {
            lemma_least_taken(open_before, best as int, bound);
            lemma_bound_raised(label, expanded, guided, exit, bound, node.f());
            bound = node.f();
            if pending(label, open_before).contains(current) {
                lemma_least_is_fresh(label, open_before, best as int);
            }
            if current != entrance {
                assert(came_from.at(current) is Some);
                m0.lemma_step_markable(came_from.at(current)->0, current);
            }
            assert(maze@.cell(current) == visited_cell(m0, expanded, current));
        }
        if stats.steps < usize::MAX {
            stats.new_step();
        }
        tag_and_show(
            maze,
            sink,
            current,
            CellType::Visited,
            if report {
                Some(*stats)
            } else {
                None
            },
            Ghost(m0),
            Ghost(old(sink)@),
        );
        proof {
            stepped = true;
            expansions = expansions + 1;
            assert forall|i: int| 0 <= i < open@.len() implies {
                &&& label.dom().contains((#[trigger] open@[i]).point)
                &&& label[open@[i].point] <= open@[i].g
                &&& open@[i].g < cell_count
                &&& open@[i].h == if guided {
                    open@[i].point.manhattan(exit)
                } else {
                    0
                }
            } by {
                if i < best {
                    assert(open@[i] == open_before[i]);
                } else {
                    assert(open@[i] == open_before[i + 1]);
                }
            }
        }
        if current == exit {
            found = true;
            proof {
                assert forall|other: Seq<Point>| #[trigger]
                    m0.walk_between(other, entrance, exit) implies label[exit] + 1
                    <= other.len() by {
                    if label[exit] + 1 > other.len() {
                        let i = m0.lemma_frontier_on_walk(label, pending(label, open_before),
                            other);
                        let via = other[i];
                        assert(has_entry(open_before, via, label[via] as int));
                        let k = choose|k: int|
                            0 <= k < open_before.len() && (#[trigger] open_before[k]).point == via
                                && open_before[k].g == label[via];
                        assert(open_before[best as int].f() <= open_before[k].f());
                        m0.lemma_walk_covers_manhattan(other, i);
                        assert(open_before[k].h <= other.len() - 1 - i);
                        assert(label[exit] <= node.g);
                    }
                }
                assert(fresh);
                assert(exit.manhattan(exit) == 0);
                lemma_expanded_more(label, expanded, guided, exit, bound, current);
                expanded = expanded.insert(current);
                assert forall|p: Point|
                    label.dom().contains(p) && !expanded.contains(p) implies #[trigger] queued(
                    open@,
                    p,
                ) by {
                    lemma_entry_remove(open_before, best as int, p, 0);
                }
            }
        } else {
            proof {
                m0.lemma_same_topology_step_all(maze@, current);
            }
            let neighbors = maze.open_neighbors(current, &dirs);
            let ghost seen_before = seen.cells@;
            let ghost g_before = g.cells@;
            proof {
                assert forall|u: Point, w: Point|
                    #[trigger] m0.step(u, w) && label.dom().contains(u) && u != current && !pending(
                        label,
                        open@,
                    ).contains(u) implies label.dom().contains(w) && label[w] <= label[u] + 1 by {
                    lemma_entry_remove(open_before, best as int, u, label[u] as int);
                    assert(!pending(label, open_before).contains(u));
                }
                assert forall|p: Point|
                    label.dom().contains(p) && !expanded.contains(p) && p
                        != current implies #[trigger] queued(open@, p) by {
                    lemma_entry_remove(open_before, best as int, p, 0);
                }
                if label.dom().contains(exit) {
                    lemma_entry_remove(open_before, best as int, exit, label[exit] as int);
                }
                if !fresh {
                    assert(!pending(label, open_before).contains(current));
                }
            }
            let mut i: usize = 0;
            while i < neighbors.len()
                invariant
                    m0.wf(),
                    !found,
                    i <= neighbors.len(),
                    current != exit,
                    m0.in_bounds(current),
                    m0.in_bounds(exit),
                    label.dom().contains(current),
                    maze.wf(),
                    maze.width == old(maze).width,
                    maze.height == old(maze).height,
                    m0.width == maze.width,
                    m0.height == maze.height,
                    cell_count == m0.width * m0.height,
                    cell_count <= 0x7fff_ffff * 0x7fff_ffff,
                    seen.wf(),
                    seen.width == maze.width,
                    seen.height == maze.height,
                    g.wf(),
                    g.width == maze.width,
                    g.height == maze.height,
                    came_from.wf(),
                    came_from.width == maze.width,
                    came_from.height == maze.height,
                    forall|k: int|
                        0 <= k < neighbors.len() ==> m0.step(current, #[trigger] neighbors[k]),
                    tree_inv(m0, entrance, label, came_from),
                    forall|p: Point| #[trigger]
                        label.dom().contains(p) ==> seen.at(p) && label[p] == g.at(p),
                    forall|p: Point|
                        m0.in_bounds(p) && #[trigger] seen.at(p) ==> label.dom().contains(p),
                    forall|p: Point| #[trigger]
                        label.dom().contains(p) ==> label[p] + 1 + count_false(seen.cells@)
                            <= cell_count,
                    forall|p: Point| #[trigger] expanded.contains(p) ==> label.dom().contains(p),
                    !expanded.contains(exit),
                    forall|p: Point|
                        label.dom().contains(p) && !expanded.contains(p) && p != current
                            ==> #[trigger] queued(open@, p),
                    forall|k: int|
                        0 <= k < open@.len() ==> {
                            &&& label.dom().contains((#[trigger] open@[k]).point)
                            &&& label[open@[k].point] <= open@[k].g
                            &&& open@[k].g < cell_count
                            &&& open@[k].h == if guided {
                                open@[k].point.manhattan(exit)
                            } else {
                                0
                            }
                        },
                    forall|u: Point, w: Point|
                        #[trigger] m0.step(u, w) && label.dom().contains(u) && u != current
                            && !pending(label, open@).contains(u) ==> label.dom().contains(w)
                            && label[w] <= label[u] + 1,
                    forall|k: int|
                        0 <= k < i ==> label.dom().contains(#[trigger] neighbors[k])
                            && label[neighbors[k]]
                            <= label[current] + 1,
                    bound == node.g + node.h,
                    node.h == estimate(guided, current, exit),
                    label[current] <= node.g,
                    fresh == (node.g == label[current]),
                    !fresh ==> forall|w: Point| #[trigger]
                        m0.step(current, w) ==> label.dom().contains(w) && label[w]
                            <= label[current] + 1,
                    expanded_within(label, expanded, guided, exit, bound),
                    open_beyond(open@, bound),
                    label.dom().contains(exit) ==> pending(label, open@).contains(exit),
                    count_false(seen.cells@) < count_false(seen_before) || (count_false(
                        seen.cells@,
                    ) == count_false(seen_before) && total(g.cells@) < total(g_before)) || (
                    count_false(seen.cells@) == count_false(seen_before) && total(g.cells@)
                        == total(g_before) && open@.len() < open_before.len()),
                decreases neighbors.len() - i,
            {
                let next = neighbors[i];
                assert(m0.step(current, neighbors[i as int]));
                let tentative = g.get(current) + 1;
                let first = !seen.get(next);
                if first || tentative < g.get(next) {
                    proof {
                        seen.lemma_index(next);
                        g.lemma_index(next);
                        if first {
                            lemma_count_false_update(seen.cells@, next.y * seen.width + next.x);
                        } else {
                            assert(seen.cells@.update(next.y * seen.width + next.x, true)
                                =~= seen.cells@);
                            lemma_total_update(g.cells@, next.y * g.width + next.x, tentative);
                        }
                    }
                    let ghost label_before = label;
                    let ghost open_mid = open@;
                    g.set(next, tentative);
                    seen.set(next, true);
                    came_from.set(next, Some(current));
                    let h = if guided {
                        manhattan_distance(&next, &exit)
                    } else {
                        0
                    };
                    let entry = Node { point: next, g: tentative, h };
                    open.push(entry);
                    proof {
                        assert(fresh);
                        assert(current.manhattan(exit) <= next.manhattan(exit) + 1);
                        lemma_entry_beyond(open_mid, entry, bound);
                        lemma_label_lowered(
                            label,
                            expanded,
                            guided,
                            exit,
                            bound,
                            next,
                            tentative as nat,
                        );
                        lemma_entry_push(open_mid, entry, exit, label[exit] as int);
                        label = label.insert(next, tentative as nat);
                        assert(next != entrance);
                        assert(next != current);
                        assert forall|p: Point|
                            label.dom().contains(p) && !expanded.contains(p) && p
                                != current implies #[trigger] queued(open@, p) by {
                            lemma_entry_push(open_mid, entry, p, 0);
                        }
                        assert forall|u: Point, w: Point|
                            #[trigger] m0.step(u, w) && label.dom().contains(u) && u != current
                                && !pending(label, open@).contains(u) implies label.dom().contains(
                            w,
                        ) && label[w] <= label[u] + 1 by {
                            lemma_entry_push(open_mid, entry, u, label[u] as int);
                            if u != next {
                                assert(label_before.dom().contains(u));
                                assert(!pending(label_before, open_mid).contains(u));
                            }
                        }
                        assert forall|k: int| 0 <= k < i + 1 implies label.dom().contains(
                            #[trigger] neighbors[k],
                        ) && label[neighbors[k]] <= label[current] + 1 by {
                            if k < i {
                                assert(label_before.dom().contains(neighbors[k]));
                            }
                        }
                    }
                }
                i += 1;
            }
            proof {
                lemma_expanded_more(label, expanded, guided, exit, bound, current);
                expanded = expanded.insert(current);
                assert forall|u: Point, w: Point|
                    #[trigger] m0.step(u, w) && label.dom().contains(u) && !pending(
                        label,
                        open@,
                    ).contains(u) implies label.dom().contains(w) && label[w] <= label[u] + 1 by {
                    if u == current {
                        assert(neighbors@.contains(w));
                        let k = choose|k: int| 0 <= k < neighbors@.len() && neighbors@[k] == w;
                        assert(neighbors[k] == w);
                    }
                }
            }
        }
    }
    if found {
        let ghost path = tree_walk(entrance, label, came_from, exit);
        tag_route(
            maze,
            sink,
            &came_from,
            entrance,
            exit,
            Ghost(m0),
            Ghost(label),
            Ghost(expanded),
            Ghost(old(sink)@),
        );
        proof {
            lemma_tree_walk(m0, entrance, label, came_from, exit);
            lemma_route_found(m0, maze@, entrance, exit, label, came_from, expanded);
            let shown = choose|shown: Seq<Point>|
                route_marked(m0, maze@, shown, entrance, exit) && m0.shortest_between(
                    shown,
                    entrance,
                    exit,
                );
            lemma_route_cells(m0, maze@, shown, entrance, exit);
            assert(shown.len() == path.len());
            lemma_visits_bounded(
                m0,
                maze@,
                entrance,
                exit,
                label,
                came_from,
                expanded,
                guided,
                bound,
            );
        }
    } else {
        proof {
            assert(pending(label, open@) =~= Set::<Point>::empty()) by {
                assert forall|p: Point| !(#[trigger] pending(label, open@).contains(p)) by {
                    if pending(label, open@).contains(p) {
                        assert(has_entry(open@, p, label[p] as int));
                    }
                }
            }
            assert forall|p: Point| #[trigger] label.dom().contains(p) implies expanded.contains(
                p,
            ) by {
                if !expanded.contains(p) {
                    assert(queued(open@, p));
                }
            }
            lemma_search_exhausted(m0, maze@, entrance, exit, label, came_from, expanded);
            lemma_no_route_cells(maze@);
            assert forall|route: Seq<Point>| #[trigger]
                m0.walk_between(route, entrance, exit) implies bound + 1 <= route.len() by {
                let i = m0.lemma_frontier_on_walk(label, Set::<Point>::empty(), route);
            }
            lemma_visits_bounded(
                m0,
                maze@,
                entrance,
                exit,
                label,
                came_from,
                expanded,
                guided,
                bound,
            );
        }
    }
}

} // verus!
