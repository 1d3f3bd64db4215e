use std::collections::VecDeque;
use vstd::prelude::*;
use super::directions::{lists_unit_offsets, Movements};
use super::grid::{count_false, lemma_count_false_update, Grid};
use super::pathfinding::{
    frames_extend, frames_up_to_date, lemma_frames_extend_start, lemma_marks_only_reflexive,
    marks_only, visited_cell, SnapshotSink,
};
use super::point::Point;
use super::priority_search::{
    expanded_within, lemma_bound_raised, lemma_expanded_more, lemma_label_lowered,
};
use super::search::{tag_and_show, tree_inv};
use crate::maze::{Maze, MazeView};
use crate::maze_cell::CellType;

verus! {

/// The labelled cells that a search has not expanded yet.
pub open spec fn waiting(label: Map<Point, nat>, expanded: Set<Point>) -> Set<Point> {
    Set::new(|p: Point| label.dom().contains(p) && !expanded.contains(p))
}

/// What a breadth-first search has found out when it stops.
pub struct Labelling {
    /// Whether the goal was expanded.
    pub found: bool,
    /// For each labelled cell but the start, the cell from which it was
    /// discovered.
    pub came_from: Grid<Option<Point>>,
    /// For each cell that was discovered, its distance from the start.
    pub label: Ghost<Map<Point, nat>>,
    /// The cells that were expanded.
    pub expanded: Ghost<Set<Point>>,
}

impl Labelling {
    /// What holds of the outcome of a breadth-first search from `from` to
    /// `to` in the maze `m`. The labelled cells form a tree of
    /// predecessors rooted at `from`, in which every predecessor was
    /// expanded. Where the goal was found, its label is the length of a
    /// shortest chain of moves to it, and no expanded cell has a larger
    /// label. Where it was not, every labelled cell was expanded and nothing
    /// is left to discover.
    pub open spec fn complete(&self, m: MazeView, from: Point, to: Point) -> bool {
        let label = self.label@;
        let expanded = self.expanded@;
        &&& self.came_from.wf()
        &&& self.came_from.width == m.width
        &&& self.came_from.height == m.height
        &&& tree_inv(m, from, label, self.came_from)
        &&& expanded.finite()
        &&& forall|p: Point| #[trigger] expanded.contains(p) ==> label.dom().contains(p)
        &&& forall|p: Point|
            label.dom().contains(p) && p != from ==> expanded.contains(
                (#[trigger] self.came_from.at(p))->0,
            )
        &&& self.found ==> {
            &&& label.dom().contains(to)
            &&& expanded.contains(to)
            &&& forall|other: Seq<Point>| #[trigger]
                m.walk_between(other, from, to) ==> label[to] + 1 <= other.len()
            &&& expanded_within(label, expanded, false, to, label[to] as int)
        }
        &&& !self.found ==> {
            &&& !expanded.contains(to)
            &&& m.settled_except(label, Set::<Point>::empty())
            &&& forall|p: Point| #[trigger] label.dom().contains(p) ==> expanded.contains(p)
        }
    }
}

/// Breadth-first search from `from`: expands the cells in the order of
/// their distance from `from`, until `to` is expanded or no cell is left.
/// With `mark` each cell that is expanded is tagged `Visited` and a
/// snapshot is sent; without, the maze and the sink are left as they are.
#[verifier::rlimit(40)]
pub fn breadth_first(
    maze: &mut Maze,
    sink: &mut SnapshotSink,
    from: Point,
    to: Point,
    mark: bool,
) -> (outcome: Labelling)
    requires
        old(maze).wf(),
        old(maze)@.in_bounds(from),
        old(maze)@.in_bounds(to),
        mark ==> old(maze)@.unmarked() && old(maze)@.markable(from),
    ensures
        final(maze).wf(),
        final(maze).width == old(maze).width,
        final(maze).height == old(maze).height,
        final(maze).maze_type == old(maze).maze_type,
        final(maze)@.same_topology(old(maze)@),
        marks_only(old(maze)@, final(maze)@),
        outcome.complete(old(maze)@, from, to),
        final(sink).follows(old(sink)),
        frames_extend(old(sink)@, final(sink)@, old(maze)@),
        frames_up_to_date(old(sink)@, final(sink)@, old(maze)@, final(maze)@),
        mark ==> {
            &&& forall|p: Point|
                old(maze)@.in_bounds(p) ==> #[trigger] final(maze)@.cell(p) == visited_cell(
                    old(maze)@,
                    outcome.expanded@,
                    p,
                )
            &&& final(sink)@.len() == old(sink)@.len() + outcome.expanded@.len()
            &&& final(sink)@.len() > old(sink)@.len()
            &&& final(sink).shows(final(maze))
        },
        !mark ==> final(maze)@ == old(maze)@ && final(sink)@ == old(sink)@,
{
    let ghost m0 = maze@;
    proof {
        m0.lemma_index_in_range(from);
        m0.lemma_index_in_range(to);
        lemma_marks_only_reflexive(m0);
    }
    assert(maze.cells.len() == maze.width * maze.height);
    proof {
        lemma_frames_extend_start(sink@, m0);
    }
    let dirs = Movements::direction_list();
    let mut queue: VecDeque<Point> = VecDeque::new();
    let mut seen: Grid<bool> = Grid::new(maze.width, maze.height, false);
    let mut came_from: Grid<Option<Point>> = Grid::new(maze.width, maze.height, None);
    seen.set(from, true);
    queue.push_back(from);
    let ghost mut label: Map<Point, nat> = Map::<Point, nat>::empty().insert(from, 0nat);
    let ghost mut expanded: Set<Point> = Set::<Point>::empty();
    let mut found = false;
    let ghost mut stepped = false;
    let ghost mut limit: int = 0;
    proof {
        assert(expanded_within(label, expanded, false, to, limit)) by {
            reveal(expanded_within);
        }
        assert(queue@[0] == from);
        assert forall|p: Point|
            label.dom().contains(p) && !expanded.contains(p) implies #[trigger] queue@.contains(
            p,
        ) by {
            assert(queue@[0] == p);
        }
    }
    while !found && queue.len() > 0
        invariant
            m0.wf(),
            m0 == old(maze)@,
            m0.in_bounds(from),
            m0.in_bounds(to),
            mark ==> m0.unmarked() && m0.markable(from),
            maze.wf(),
            maze.width == old(maze).width,
            maze.height == old(maze).height,
            maze.maze_type == old(maze).maze_type,
            maze@.same_topology(m0),
            marks_only(m0, maze@),
            lists_unit_offsets(dirs@),
            seen.wf(),
            seen.width == maze.width,
            seen.height == maze.height,
            came_from.wf(),
            came_from.width == maze.width,
            came_from.height == maze.height,
            tree_inv(m0, from, label, came_from),
            forall|p: Point| #[trigger] label.dom().contains(p) ==> seen.at(p),
            forall|p: Point| m0.in_bounds(p) && #[trigger] seen.at(p) ==> label.dom().contains(p),
            forall|p: Point| #[trigger] expanded.contains(p) ==> label.dom().contains(p),
            forall|i: int|
                0 <= i < queue@.len() ==> label.dom().contains(#[trigger] queue@[i])
                    && !expanded.contains(queue@[i]),
            queue@.no_duplicates(),
            forall|p: Point|
                label.dom().contains(p) && !expanded.contains(p) ==> #[trigger] queue@.contains(
                    p,
                ),
            !found ==> m0.settled_except(label, waiting(label, expanded)),
            !found ==> forall|i: int, j: int|
                0 <= i <= j < queue@.len() ==> label[#[trigger] queue@[i]] <= label[
                #[trigger] queue@[j]],
            !found ==> forall|p: Point|
                #[trigger] label.dom().contains(p) && queue@.len() > 0
                    ==> label[p] <= label[queue@[0]]
                    + 1,
            mark ==> forall|p: Point|
                m0.in_bounds(p) ==> #[trigger] maze@.cell(p) == visited_cell(m0, expanded, p),
            !mark ==> maze@ == m0 && sink@ == old(sink)@,
            found ==> label.dom().contains(to) && forall|other: Seq<Point>| #[trigger]
                m0.walk_between(other, from, to) ==> label[to] + 1 <= other.len(),
            !found ==> !expanded.contains(to),
            found ==> expanded.contains(to),
            expanded_within(label, expanded, false, to, limit),
            found ==> limit == label[to],
            !found && queue@.len() > 0 ==> limit <= label[queue@[0]],
            sink.follows(old(sink)),
            frames_extend(old(sink)@, sink@, m0),
            frames_up_to_date(old(sink)@, sink@, m0, maze@),
            stepped || (!found && queue@.len() > 0),
            mark && stepped ==> sink.shows(maze),
            expanded.finite(),
            mark ==> sink@.len() == old(sink)@.len() + expanded.len(),
            forall|p: Point|
                label.dom().contains(p) && p != from ==> expanded.contains(
                    (#[trigger] came_from.at(p))->0,
                ),
        decreases (if found { 0int } else { 1int }) + 2 * count_false(seen.cells@) + queue@.len(),
    {
        let ghost queue_before = queue@;
        let current = queue.pop_front().unwrap();
        assert(current == queue_before[0]);
        assert(label.dom().contains(current));
        if mark {
            proof {
                if current != from {
                    assert(came_from.at(current) is Some);
                    m0.lemma_step_markable(came_from.at(current)->0, current);
                }
                assert(maze@.cell(current) == visited_cell(m0, expanded, current));
            }
            tag_and_show(
                maze,
                sink,
                current,
                CellType::Visited,
                None,
                Ghost(m0),
                Ghost(old(sink)@),
            );
        }
        proof {
            stepped = true;
            lemma_bound_raised(label, expanded, false, to, limit, label[current] as int);
            limit = label[current] as int;
        }
        if current == to {
            found = true;
            proof {
                lemma_expanded_more(label, expanded, false, to, limit, current);
                assert forall|other: Seq<Point>| #[trigger]
                    m0.walk_between(other, from, to) implies label[to] + 1
                    <= other.len() by {
                    if label[to] + 1 > other.len() {
                        let i = m0.lemma_frontier_on_walk(
                            label,
                            waiting(label, expanded),
                            other,
                        );
                        assert(queue_before.contains(other[i]));
                        let k = choose|k: int|
                            0 <= k < queue_before.len() && queue_before[k] == other[i];
                        assert(label[queue_before[0]] <= label[queue_before[k]]);
                    }
                }
                expanded = expanded.insert(current);
                assert forall|p: Point|
                    label.dom().contains(p) && !expanded.contains(p)
                        implies #[trigger] queue@.contains(
                    p,
                ) by {
                    assert(queue_before.contains(p));
                    let k = choose|k: int| 0 <= k < queue_before.len() && queue_before[k] == p;
                    assert(queue@[k - 1] == p);
                }
            }
        } else {
            proof {
                m0.lemma_same_topology_step_all(maze@, current);
            }
            let neighbors = maze.open_neighbors(current, &dirs);
            proof {
                assert forall|p: Point|
                    label.dom().contains(p) && !expanded.contains(p) && p
                        != current implies #[trigger] queue@.contains(p) by {
                    assert(queue_before.contains(p));
                    let k = choose|k: int| 0 <= k < queue_before.len() && queue_before[k] == p;
                    assert(queue@[k - 1] == p);
                }
                assert forall|k: int| 0 <= k < queue@.len() implies #[trigger] queue@[k]
                    != current by {
                    assert(queue_before[k + 1] == queue@[k]);
                }
            }
            let ghost seen_before = seen.cells@;
            let ghost waiting_before = waiting(label, expanded);
            let mut i: usize = 0;
            while i < neighbors.len()
                invariant
                    m0.wf(),
                    !found,
                    i <= neighbors.len(),
                    current != to,
                    m0.in_bounds(current),
                    label.dom().contains(current),
                    maze.width == old(maze).width,
                    maze.height == old(maze).height,
                    seen.wf(),
                    seen.width == maze.width,
                    seen.height == maze.height,
                    came_from.wf(),
                    came_from.width == maze.width,
                    came_from.height == maze.height,
                    m0.width == maze.width,
                    m0.height == maze.height,
                    queue_before.len() > 0,
                    queue_before[0] == current,
                    forall|k: int|
                        0 <= k < neighbors.len() ==> m0.step(current, #[trigger] neighbors[k]),
                    tree_inv(m0, from, label, came_from),
                    forall|p: Point| #[trigger] label.dom().contains(p) ==> seen.at(p),
                    forall|p: Point|
                        m0.in_bounds(p) && #[trigger] seen.at(p) ==> label.dom().contains(p),
                    forall|p: Point| #[trigger] expanded.contains(p) ==> label.dom().contains(p),
                    forall|p: Point|
                        label.dom().contains(p) && p != from ==> expanded.contains(
                            (#[trigger] came_from.at(p))->0,
                        ) || came_from.at(p) == Some(current),
                    !expanded.contains(current),
                    !expanded.contains(to),
                    forall|k: int|
                        0 <= k < queue@.len() ==> label.dom().contains(#[trigger] queue@[k])
                            && !expanded.contains(queue@[k]) && queue@[k] != current,
                    queue@.no_duplicates(),
                    forall|p: Point|
                        label.dom().contains(p) && !expanded.contains(p) && p != current
                            ==> #[trigger] queue@.contains(p),
                    m0.settled_except(label, waiting(label, expanded)),
                    forall|k: int|
                        0 <= k < i ==> label.dom().contains(#[trigger] neighbors[k])
                            && label[neighbors[k]]
                            <= label[current] + 1,
                    forall|a: int, b: int|
                        0 <= a <= b < queue@.len() ==> label[#[trigger] queue@[a]] <= label[
                        #[trigger] queue@[b]],
                    forall|k: int|
                        0 <= k < queue@.len() ==> label[current] <= label[#[trigger] queue@[k]],
                    forall|p: Point| #[trigger]
                        label.dom().contains(p) ==> label[p] <= label[current] + 1,
                    limit == label[current],
                    expanded_within(label, expanded, false, to, limit),
                    2 * count_false(seen.cells@) + queue@.len() <= 2 * count_false(seen_before)
                        + queue_before.len() - 1,
                decreases neighbors.len() - i,
            {
                let next = neighbors[i];
                assert(m0.step(current, neighbors[i as int]));
                if !seen.get(next) {
                    proof {
                        seen.lemma_index(next);
                        lemma_count_false_update(seen.cells@, next.y * seen.width + next.x);
                    }
                    let ghost label_before = label;
                    let ghost queue_mid = queue@;
                    seen.set(next, true);
                    came_from.set(next, Some(current));
                    queue.push_back(next);
                    proof {
                        lemma_label_lowered(
                            label,
                            expanded,
                            false,
                            to,
                            limit,
                            next,
                            label[current] + 1,
                        );
                        label = label.insert(next, label[current] + 1);
                        assert(queue@[queue@.len() - 1] == next);
                        assert forall|p: Point|
                            label.dom().contains(p) && !expanded.contains(p) && p
                                != current implies #[trigger] queue@.contains(p) by {
                            if p != next {
                                assert(queue_mid.contains(p));
                                let k = choose|k: int| 0 <= k < queue_mid.len()
                                    && queue_mid[k] == p;
                                assert(queue@[k] == p);
                            }
                        }
                        assert forall|u: Point, w: Point|
                            #[trigger] m0.step(u, w) && label.dom().contains(u) && !waiting(
                                label,
                                expanded,
                            ).contains(u) implies label.dom().contains(w) && label[w] <= label[u]
                            + 1 by {
                            assert(label_before.dom().contains(u));
                            assert(!waiting(label_before, expanded).contains(u));
                        }
                    }
                }
                i += 1;
            }
            proof {
                lemma_expanded_more(label, expanded, false, to, limit, current);
                expanded = expanded.insert(current);
                assert forall|u: Point, w: Point|
                    #[trigger] m0.step(u, w) && label.dom().contains(u) && !waiting(
                        label,
                        expanded,
                    ).contains(u) implies label.dom().contains(w) && label[w] <= label[u] + 1 by {
                    if u == current {
                        assert(neighbors@.contains(w));
                        let k = choose|k: int| 0 <= k < neighbors@.len() && neighbors@[k] == w;
                        assert(neighbors[k] == w);
                    } else {
                        assert(!waiting(label, expanded.remove(current)).contains(u));
                    }
                }
                if queue@.len() > 0 {
                    assert(label[current] <= label[queue@[0]]);
                }
            }
        }
    }
    proof {
        if !found {
            assert(waiting(label, expanded) =~= Set::<Point>::empty()) by {
                assert forall|p: Point| !(#[trigger] waiting(label, expanded).contains(p)) by {
                    if waiting(label, expanded).contains(p) {
                        assert(queue@.contains(p));
                    }
                }
            }
            assert forall|p: Point| #[trigger] label.dom().contains(p) implies expanded.contains(
                p,
            ) by {
                if !expanded.contains(p) {
                    assert(queue@.contains(p));
                }
            }
        }
    }
    Labelling { found, came_from, label: Ghost(label), expanded: Ghost(expanded) }
}

} // verus!
