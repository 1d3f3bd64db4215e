use vstd::prelude::*;
use super::grid::Grid;
use super::pathfinding::{
    complete_search_result, frames_extend, frames_up_to_date, lemma_frames_extend_facts,
    lemma_frames_extend_push, lemma_marks_only_tag, marked_cells, marks_only, one_tag_apart,
    route_marked, shortest_search_result, visited_cell, Frame, SnapshotSink,
};
use super::point::Point;
use crate::maze::{Maze, MazeView};
use crate::maze_cell::{CellType, MazeCell};

verus! {

/// What the searches that remember predecessors keep: every labelled cell
/// other than `root` has a labelled predecessor with a smaller label, from
/// which a move leads to it.
pub open spec fn tree_inv(
    m: MazeView,
    root: Point,
    label: Map<Point, nat>,
    came_from: Grid<Option<Point>>,
) -> bool {
    &&& m.in_bounds(root)
    &&& label.dom().contains(root)
    &&& label[root] == 0
    &&& forall|p: Point| #[trigger] label.dom().contains(p) ==> m.in_bounds(p)
    &&& forall|p: Point|
        label.dom().contains(p) && p != root ==> {
            &&& (#[trigger] came_from.at(p)) is Some
            &&& label.dom().contains(came_from.at(p)->0)
            &&& label[came_from.at(p)->0] < label[p]
            &&& m.step(came_from.at(p)->0, p)
        }
}

/// The chain of predecessors that ends in `p`, from its far end to `p`.
pub open spec fn tree_walk(
    root: Point,
    label: Map<Point, nat>,
    came_from: Grid<Option<Point>>,
    p: Point,
) -> Seq<Point>
    decreases label[p],
{
    if p != root && came_from.at(p) is Some && label[came_from.at(p)->0] < label[p] {
        tree_walk(root, label, came_from, came_from.at(p)->0).push(p)
    } else {
        seq![p]
    }
}

/// The chain of predecessors of a labelled cell is a walk from the root to
/// the cell, passes no cell twice, and has at most as many moves as the
/// label says.
#[verifier::rlimit(40)]
pub proof fn lemma_tree_walk(
    m: MazeView,
    root: Point,
    label: Map<Point, nat>,
    came_from: Grid<Option<Point>>,
    p: Point,
)
    requires
        tree_inv(m, root, label, came_from),
        label.dom().contains(p),
    ensures
        m.walk_between(tree_walk(root, label, came_from, p), root, p),
        tree_walk(root, label, came_from, p).len() <= label[p] + 1,
        tree_walk(root, label, came_from, p).no_duplicates(),
        forall|k: int|
            0 <= k < tree_walk(root, label, came_from, p).len() ==> {
                &&& label.dom().contains(#[trigger] tree_walk(root, label, came_from, p)[k])
                &&& label[tree_walk(root, label, came_from, p)[k]] <= label[p]
                &&& (tree_walk(root, label, came_from, p)[k] == root <==> k == 0)
                &&& k > 0 ==> came_from.at(tree_walk(root, label, came_from, p)[k]) == Some(
                    tree_walk(root, label, came_from, p)[k - 1],
                )
            },
        forall|k: int|
            0 <= k < tree_walk(root, label, came_from, p).len() - 1 ==> label[(
            #[trigger] tree_walk(root, label, came_from, p)[k])] < label[p],
    decreases label[p],
{
    let path = tree_walk(root, label, came_from, p);
    if p != root {
        let pred = came_from.at(p)->0;
        assert(came_from.at(p) is Some);
        lemma_tree_walk(m, root, label, came_from, pred);
        let shorter = tree_walk(root, label, came_from, pred);
        assert(path == shorter.push(p));
        m.lemma_walk_push(shorter, p);
        assert forall|i: int, j: int| 0 <= i < path.len() && 0 <= j < path.len()
            && i != j implies path[i]
            != path[j] by {
            if i < shorter.len() && j < shorter.len() {
                assert(shorter[i] != shorter[j]);
            } else if i < shorter.len() {
                assert(label[shorter[i]] <= label[pred]);
            } else {
                assert(label[shorter[j]] <= label[pred]);
            }
        }
        assert forall|k: int| 0 <= k < path.len() implies {
            &&& label.dom().contains(#[trigger] path[k])
            &&& label[path[k]] <= label[p]
            &&& (path[k] == root <==> k == 0)
            &&& k > 0 ==> came_from.at(path[k]) == Some(path[k - 1])
        } by {
            if k < shorter.len() {
                assert(label[shorter[k]] <= label[pred]);
            }
        }
        assert forall|k: int| 0 <= k < path.len() - 1 implies label[(#[trigger] path[k])]
            < label[p] by {
            assert(label[shorter[k]] <= label[pred]);
        }
    } else {
        assert(path == seq![p]);
    }
}

/// A search that has labelled the exit with the length of a shortest route
/// and then tagged the chain of its predecessors has left a shortest
/// search result.
pub proof fn lemma_route_found(
    m: MazeView,
    after: MazeView,
    entrance: Point,
    exit: Point,
    label: Map<Point, nat>,
    came_from: Grid<Option<Point>>,
    expanded: Set<Point>,
)
    requires
        m.wf(),
        m.unmarked(),
        m.entrance() == Some(entrance),
        m.exit() == Some(exit),
        tree_inv(m, entrance, label, came_from),
        label.dom().contains(exit),
        forall|other: Seq<Point>| #[trigger]
            m.walk_between(other, entrance, exit) ==> label[exit] + 1 <= other.len(),
        forall|p: Point| #[trigger] expanded.contains(p) ==> label.dom().contains(p),
        after.same_topology(m),
        forall|p: Point|
            m.in_bounds(p) ==> #[trigger] after.cell(p) == if tree_walk(
                entrance,
                label,
                came_from,
                exit,
            ).contains(p) {
                MazeCell {
                    cell_type: CellType::FinalPath,
                    walls: visited_cell(m, expanded, p).walls,
                }
            } else {
                visited_cell(m, expanded, p)
            },
    ensures
        shortest_search_result(m, after),
{
    let path = tree_walk(entrance, label, came_from, exit);
    lemma_tree_walk(m, entrance, label, came_from, exit);
    assert(m.shortest_between(path, entrance, exit));
    assert(route_marked(m, after, path, entrance, exit)) by {
        assert forall|p: Point| after.in_bounds(p) implies ((#[trigger] after.cell(p)).cell_type
            == CellType::FinalPath <==> path.contains(p)) by {
            assert(!m.cell(p).is_search_mark());
        }
    }
    assert(m.reachable(entrance, exit));
    assert forall|p: Point|
        after.in_bounds(p) && #[trigger] after.cell(p) != m.cell(p) implies m.reachable(
        entrance,
        p,
    ) by {
        if path.contains(p) {
            let k = choose|k: int| 0 <= k < path.len() && path[k] == p;
            assert(label.dom().contains(path[k]));
        }
        lemma_tree_walk(m, entrance, label, came_from, p);
        assert(m.walk_between(tree_walk(entrance, label, came_from, p), entrance, p));
    }
    assert forall|p: Point| after.in_bounds(p) implies (#[trigger] after.cell(p)) == m.cell(p)
        || after.cell(p).is_search_mark() by {
        assert(!m.cell(p).is_search_mark());
    }
}

/// Where a search has tagged the cells that it expanded `Visited` and then
/// the cells of a route through cells that it expanded `FinalPath`, the
/// cells that carry a tag of the search are those that it expanded.
pub proof fn lemma_marked_are_expanded(
    m: MazeView,
    after: MazeView,
    path: Seq<Point>,
    expanded: Set<Point>,
)
    requires
        m.wf(),
        m.unmarked(),
        after.same_topology(m),
        forall|p: Point| #[trigger] expanded.contains(p) ==> m.in_bounds(p),
        forall|k: int| 0 <= k < path.len() ==> expanded.contains(#[trigger] path[k]),
        forall|p: Point|
            m.in_bounds(p) ==> #[trigger] after.cell(p) == if path.contains(p) {
                MazeCell {
                    cell_type: CellType::FinalPath,
                    walls: visited_cell(m, expanded, p).walls,
                }
            } else {
                visited_cell(m, expanded, p)
            },
    ensures
        marked_cells(after) == expanded,
{
    assert(marked_cells(after) =~= expanded) by {
        assert forall|p: Point| marked_cells(after).contains(p) <==> expanded.contains(p) by {
            if m.in_bounds(p) {
                assert(!m.cell(p).is_search_mark());
                if path.contains(p) {
                    let k = choose|k: int| 0 <= k < path.len() && path[k] == p;
                    assert(expanded.contains(path[k]));
                }
            }
        }
    }
}

/// A search that has expanded every cell it labelled, has nothing left to
/// expand and never met the exit has left a shortest search result: the
/// exit cannot be reached.
pub proof fn lemma_search_exhausted(
    m: MazeView,
    after: MazeView,
    entrance: Point,
    exit: Point,
    label: Map<Point, nat>,
    came_from: Grid<Option<Point>>,
    expanded: Set<Point>,
)
    requires
        m.wf(),
        m.unmarked(),
        m.entrance() == Some(entrance),
        m.exit() == Some(exit),
        tree_inv(m, entrance, label, came_from),
        m.settled_except(label, Set::<Point>::empty()),
        forall|p: Point| #[trigger] label.dom().contains(p) <==> expanded.contains(p),
        !expanded.contains(exit),
        after.same_topology(m),
        forall|p: Point| m.in_bounds(p)
            ==> #[trigger] after.cell(p) == visited_cell(m, expanded, p),
    ensures
        shortest_search_result(m, after),
{
    assert forall|p: Point| m.reachable(entrance, p) implies label.dom().contains(p) by {
        let walk = choose|walk: Seq<Point>| m.walk_between(walk, entrance, p);
        if !label.dom().contains(p) {
            let i = m.lemma_frontier_on_walk(label, Set::<Point>::empty(), walk);
        }
    }
    assert forall|p: Point| after.in_bounds(p) implies ((#[trigger] after.cell(p)).cell_type
        == CellType::Visited <==> m.reachable(entrance, p)) by {
        assert(!m.cell(p).is_search_mark());
        if expanded.contains(p) {
            lemma_tree_walk(m, entrance, label, came_from, p);
            assert(m.walk_between(tree_walk(entrance, label, came_from, p), entrance, p));
        }
        if m.reachable(entrance, p) {
            assert(label.dom().contains(p));
        }
    }
    assert(!m.reachable(entrance, exit)) by {
        if m.reachable(entrance, exit) {
            assert(label.dom().contains(exit));
        }
    }
    assert forall|p: Point| after.in_bounds(p) implies (#[trigger] after.cell(p)).cell_type
        != CellType::FinalPath by {
        assert(!m.cell(p).is_search_mark());
    }
    assert forall|p: Point| after.in_bounds(p) implies (#[trigger] after.cell(p)) == m.cell(p)
        || after.cell(p).is_search_mark() by {
        assert(!m.cell(p).is_search_mark());
    }
    assert forall|p: Point|
        after.in_bounds(p) && #[trigger] after.cell(p) != m.cell(p) implies m.reachable(
        entrance,
        p,
    ) by {
        assert(expanded.contains(p));
    }
}

/// Follows the predecessors from `to` back to `from` and returns the chain
/// in walking order.
#[verifier::rlimit(40)]
pub(crate) fn trace_back(
    came_from: &Grid<Option<Point>>,
    from: Point,
    to: Point,
    Ghost(m): Ghost<MazeView>,
    Ghost(label): Ghost<Map<Point, nat>>,
) -> (route: Vec<Point>)
    requires
        came_from.wf(),
        came_from.width == m.width,
        came_from.height == m.height,
        tree_inv(m, from, label, *came_from),
        label.dom().contains(to),
    ensures
        route@ == tree_walk(from, label, *came_from, to),
{
    let ghost path = tree_walk(from, label, *came_from, to);
    proof {
        lemma_tree_walk(m, from, label, *came_from, to);
    }
    let mut backwards: Vec<Point> = Vec::new();
    backwards.push(to);
    let mut current = to;
    while current != from
        invariant
            came_from.wf(),
            came_from.width == m.width,
            came_from.height == m.height,
            tree_inv(m, from, label, *came_from),
            path == tree_walk(from, label, *came_from, to),
            m.walk_between(path, from, to),
            forall|k: int|
                0 <= k < path.len() ==> {
                    &&& label.dom().contains(#[trigger] path[k])
                    &&& (path[k] == from <==> k == 0)
                    &&& k > 0 ==> came_from.at(path[k]) == Some(path[k - 1])
                },
            1 <= backwards.len() <= path.len(),
            current == path[path.len() - backwards.len()],
            forall|i: int|
                0 <= i < backwards.len() ==> #[trigger] backwards[i] == path[path.len() - 1 - i],
        decreases path.len() - backwards.len(),
    {
        let ghost k = path.len() - backwards.len();
        assert(label.dom().contains(path[k]));
        assert(k > 0);
        assert(came_from.at(path[k]) == Some(path[k - 1]));
        match came_from.get(current) {
            Some(previous) => {
                backwards.push(previous);
                current = previous;
            },
            None => {},
        }
    }
    assert(backwards.len() == path.len()) by {
        let k = path.len() - backwards.len();
        assert(path[k] == from);
    }
    let mut route: Vec<Point> = Vec::new();
    let mut i: usize = backwards.len();
    while i > 0
        invariant
            i <= backwards.len(),
            backwards.len() == path.len(),
            route.len() == backwards.len() - i,
            forall|j: int| 0 <= j < backwards.len()
                ==> #[trigger] backwards[j] == path[path.len() - 1 - j],
            forall|j: int| 0 <= j < route.len() ==> #[trigger] route[j] == path[j],
        decreases i,
    {
        i -= 1;
        route.push(backwards[i]);
    }
    assert(route@ =~= path);
    route
}

/// Replaces the tag of `p` by a tag other than `Wall`, which keeps the
/// topology.
pub(crate) fn tag_cell(maze: &mut Maze, p: Point, tag: CellType, Ghost(base): Ghost<MazeView>)
    requires
        old(maze).wf(),
        old(maze)@.in_bounds(p),
        old(maze)@.markable(p),
        marks_only(base, old(maze)@),
        tag == CellType::Visited || tag == CellType::FinalPath,
    ensures
        final(maze).wf(),
        final(maze).width == old(maze).width,
        final(maze).height == old(maze).height,
        final(maze).maze_type == old(maze).maze_type,
        final(maze)@.same_topology(base),
        marks_only(base, final(maze)@),
        final(maze)@ == old(maze)@.marked(p, tag),
        final(maze)@.cell(p) == (MazeCell { cell_type: tag, walls: old(maze)@.cell(p).walls }),
        final(maze)@.markable(p),
        forall|q: Point|
            old(maze)@.in_bounds(q) && q != p ==> #[trigger] final(maze)@.cell(q) == old(
                maze,
            )@.cell(q),
{
    proof {
        maze@.lemma_marked(p, tag);
        lemma_marks_only_tag(base, maze@, p, tag);
    }
    maze.mark_cell(p, tag);
}

/// Replaces the tag of `p` by a tag of a search and sends a snapshot of
/// the maze to `sink`.
pub(crate) fn tag_and_show(
    maze: &mut Maze,
    sink: &mut SnapshotSink,
    p: Point,
    tag: CellType,
    stats: Option<super::pathfinding::PathfindingStats>,
    Ghost(base): Ghost<MazeView>,
    Ghost(before): Ghost<Seq<Frame>>,
)
    requires
        old(maze).wf(),
        old(maze)@.in_bounds(p),
        old(maze)@.markable(p),
        marks_only(base, old(maze)@),
        tag == CellType::Visited || tag == CellType::FinalPath,
        frames_extend(before, old(sink)@, base),
        frames_up_to_date(before, old(sink)@, base, old(maze)@),
    ensures
        final(maze).wf(),
        final(maze).width == old(maze).width,
        final(maze).height == old(maze).height,
        final(maze).maze_type == old(maze).maze_type,
        final(maze)@.same_topology(base),
        marks_only(base, final(maze)@),
        final(maze)@ == old(maze)@.marked(p, tag),
        final(maze)@.cell(p) == (MazeCell { cell_type: tag, walls: old(maze)@.cell(p).walls }),
        final(maze)@.markable(p),
        forall|q: Point|
            old(maze)@.in_bounds(q) && q != p ==> #[trigger] final(maze)@.cell(q) == old(
                maze,
            )@.cell(q),
        final(sink).follows(old(sink)),
        frames_extend(before, final(sink)@, base),
        frames_up_to_date(before, final(sink)@, base, final(maze)@),
        final(sink)@ == old(sink)@.push((stats, final(maze)@)),
        final(sink).shows(final(maze)),
{
    let ghost previous = maze@;
    tag_cell(maze, p, tag, Ghost(base));
    proof {
        lemma_frames_extend_facts(before, sink@, base);
        assert(one_tag_apart(previous, maze@)) by {
            reveal(one_tag_apart);
            assert(maze@ == previous.marked(p, tag));
        }
        lemma_frames_extend_push(before, sink@, base, (stats, maze@));
    }
    sink.send(maze, stats);
}

/// Tags every cell of `route` `FinalPath`, in order, and sends a snapshot
/// after each.
#[verifier::rlimit(40)]
pub(crate) fn mark_route(
    maze: &mut Maze,
    sink: &mut SnapshotSink,
    route: &Vec<Point>,
    Ghost(base): Ghost<MazeView>,
    Ghost(before): Ghost<Seq<Frame>>,
)
    requires
        old(maze).wf(),
        marks_only(base, old(maze)@),
        forall|i: int|
            0 <= i < route.len() ==> old(maze)@.in_bounds(#[trigger] route[i]) && old(
                maze,
            )@.markable(route[i]),
        frames_extend(before, old(sink)@, base),
        frames_up_to_date(before, old(sink)@, base, old(maze)@),
    ensures
        final(maze).wf(),
        final(maze).width == old(maze).width,
        final(maze).height == old(maze).height,
        final(maze).maze_type == old(maze).maze_type,
        final(maze)@.same_topology(base),
        marks_only(base, final(maze)@),
        forall|p: Point|
            old(maze)@.in_bounds(p) ==> #[trigger] final(maze)@.cell(p) == if route@.contains(p) {
                MazeCell { cell_type: CellType::FinalPath, walls: old(maze)@.cell(p).walls }
            } else {
                old(maze)@.cell(p)
            },
        final(sink).follows(old(sink)),
        frames_extend(before, final(sink)@, base),
        frames_up_to_date(before, final(sink)@, base, final(maze)@),
        final(sink)@.len() == old(sink)@.len() + route.len(),
        route.len() > 0 ==> final(sink)@.last().1 == final(maze)@,
{
    let mut i: usize = 0;
    while i < route.len()
        invariant
            i <= route.len(),
            maze.wf(),
            maze.width == old(maze).width,
            maze.height == old(maze).height,
            maze.maze_type == old(maze).maze_type,
            maze@.same_topology(base),
            marks_only(base, maze@),
            forall|k: int|
                0 <= k < route.len() ==> maze@.in_bounds(#[trigger] route[k]) && maze@.markable(
                    route[k],
                ),
            forall|p: Point|
                old(maze)@.in_bounds(p) ==> #[trigger] maze@.cell(p) == if exists|k: int|
                    0 <= k < i && route[k] == p {
                    MazeCell { cell_type: CellType::FinalPath, walls: old(maze)@.cell(p).walls }
                } else {
                    old(maze)@.cell(p)
                },
            sink.follows(old(sink)),
            frames_extend(before, sink@, base),
            frames_up_to_date(before, sink@, base, maze@),
            sink@.len() == old(sink)@.len() + i,
            i > 0 ==> sink@.last().1 == maze@,
        decreases route.len() - i,
    {
        let point = route[i];
        let ghost previous = maze@;
        tag_and_show(maze, sink, point, CellType::FinalPath, None, Ghost(base), Ghost(before));
        proof {
            assert forall|p: Point| old(maze)@.in_bounds(p) implies #[trigger] maze@.cell(p)
                == if exists|k: int| 0 <= k < i + 1 && route[k] == p {
                MazeCell { cell_type: CellType::FinalPath, walls: old(maze)@.cell(p).walls }
            } else {
                old(maze)@.cell(p)
            } by {
                if p == point {
                    assert(route[i as int] == p);
                } else {
                    assert(maze@.cell(p) == previous.cell(p));
                    if exists|k: int| 0 <= k < i + 1 && route[k] == p {
                        let k = choose|k: int| 0 <= k < i + 1 && route[k] == p;
                        assert(0 <= k < i && route[k] == p);
                    }
                }
            }
            assert forall|k: int| 0 <= k < route.len() implies maze@.in_bounds(#[trigger] route[k])
                && maze@.markable(route[k]) by {
                assert(previous.in_bounds(route[k]) && previous.markable(route[k]));
            }
        }
        i += 1;
    }
    proof {
        assert forall|p: Point| old(maze)@.in_bounds(p) implies #[trigger] maze@.cell(p)
            == if route@.contains(p) {
            MazeCell { cell_type: CellType::FinalPath, walls: old(maze)@.cell(p).walls }
        } else {
            old(maze)@.cell(p)
        } by {
            if route@.contains(p) {
                let k = choose|k: int| 0 <= k < route@.len() && route@[k] == p;
                assert(0 <= k < i && route[k] == p);
            }
        }
    }
}

/// Follows the predecessors from `to` back to `from`, tags the cells of
/// the chain `FinalPath` in walking order and sends a snapshot after each.
#[verifier::rlimit(40)]
pub(crate) fn tag_route(
    maze: &mut Maze,
    sink: &mut SnapshotSink,
    came_from: &Grid<Option<Point>>,
    from: Point,
    to: Point,
    Ghost(m): Ghost<MazeView>,
    Ghost(label): Ghost<Map<Point, nat>>,
    Ghost(expanded): Ghost<Set<Point>>,
    Ghost(frames0): Ghost<Seq<Frame>>,
)
    requires
        old(maze).wf(),
        m.wf(),
        m.markable(from),
        marks_only(m, old(maze)@),
        came_from.wf(),
        came_from.width == m.width,
        came_from.height == m.height,
        tree_inv(m, from, label, *came_from),
        label.dom().contains(to),
        forall|p: Point|
            m.in_bounds(p) ==> #[trigger] old(maze)@.cell(p) == visited_cell(m, expanded, p),
        frames_extend(frames0, old(sink)@, m),
        frames_up_to_date(frames0, old(sink)@, m, old(maze)@),
    ensures
        final(maze).wf(),
        final(maze).width == old(maze).width,
        final(maze).height == old(maze).height,
        final(maze).maze_type == old(maze).maze_type,
        final(maze)@.same_topology(m),
        marks_only(m, final(maze)@),
        forall|p: Point|
            m.in_bounds(p) ==> #[trigger] final(maze)@.cell(p) == if tree_walk(
                from,
                label,
                *came_from,
                to,
            ).contains(p) {
                MazeCell {
                    cell_type: CellType::FinalPath,
                    walls: visited_cell(m, expanded, p).walls,
                }
            } else {
                visited_cell(m, expanded, p)
            },
        final(sink).follows(old(sink)),
        frames_extend(frames0, final(sink)@, m),
        frames_up_to_date(frames0, final(sink)@, m, final(maze)@),
        final(sink)@.len() == old(sink)@.len() + tree_walk(from, label, *came_from, to).len(),
        final(sink).shows(final(maze)),
{
    let route = trace_back(came_from, from, to, Ghost(m), Ghost(label));
    let ghost path = tree_walk(from, label, *came_from, to);
    let ghost searched = maze@;
    proof {
        lemma_tree_walk(m, from, label, *came_from, to);
        assert forall|i: int| 0 <= i < route.len() implies searched.in_bounds(#[trigger] route[i])
            && searched.markable(route[i]) by {
            m.lemma_walk_in_bounds(path, i);
            if i > 0 {
                assert(m.step(path[i - 1], path[i - 1 + 1]));
            }
            m.lemma_index_in_range(path[i]);
            assert(searched.cell(path[i]) == visited_cell(m, expanded, path[i]));
        }
    }
    mark_route(maze, sink, &route, Ghost(m), Ghost(frames0));
    proof {
        assert forall|p: Point| m.in_bounds(p) implies #[trigger] maze@.cell(p) == if path.contains(
            p,
        ) {
            MazeCell { cell_type: CellType::FinalPath, walls: visited_cell(m, expanded, p).walls }
        } else {
            visited_cell(m, expanded, p)
        } by {
            assert(searched.cell(p) == visited_cell(m, expanded, p));
        }
    }
}

} // verus!
