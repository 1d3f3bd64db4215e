use vstd::prelude::*;
use crate::algorithms::point::Point;
use crate::maze::MazeView;

verus! {

impl MazeView {
    /// Whether a single move leads from `a` to `b`: both are cells of the
    /// maze, they are neighbours, and the move is not blocked.
    pub open spec fn step(self, a: Point, b: Point) -> bool {
        &&& self.in_bounds(a)
        &&& self.in_bounds(b)
        &&& a.adjacent(b)
        &&& self.passable(a, b)
    }

    /// The cells that can be entered from `current` by one of the first
    /// `count` offsets of `dirs`, in the order of the offsets.
    pub open spec fn open_cells(self, current: Point, dirs: Seq<(i32, i32)>, count: nat) -> Seq<
        Point,
    >
        decreases count,
    {
        if count == 0 {
            Seq::empty()
        } else {
            let before = self.open_cells(current, dirs, (count - 1) as nat);
            let offset = dirs[count - 1];
            let target = current.shifted(offset.0 as int, offset.1 as int);
            if 0 <= current.x + offset.0 && 0 <= current.y + offset.1 && self.step(
                current,
                target,
            ) {
                before.push(target)
            } else {
                before
            }
        }
    }

    /// Whether `path` is a chain of moves through the maze.
    pub open spec fn is_walk(self, path: Seq<Point>) -> bool {
        &&& path.len() > 0
        &&& self.in_bounds(path[0])
        &&& forall|i: int| 0 <= i < path.len() - 1 ==> self.step(#[trigger] path[i], path[i + 1])
    }

    /// Whether `path` is a chain of moves that leads from `a` to `b`.
    pub open spec fn walk_between(self, path: Seq<Point>, a: Point, b: Point) -> bool {
        &&& self.is_walk(path)
        &&& path[0] == a
        &&& path.last() == b
    }

    /// Whether some chain of moves leads from `a` to `b`.
    pub open spec fn reachable(self, a: Point, b: Point) -> bool {
        exists|path: Seq<Point>| self.walk_between(path, a, b)
    }

    /// Whether some chain of exactly `moves` moves leads from `a` to `b`.
    pub open spec fn within(self, a: Point, b: Point, moves: nat) -> bool {
        exists|path: Seq<Point>| #[trigger] self.walk_between(path, a, b) && path.len() == moves + 1
    }

    /// Whether every open cell can be reached from `from`.
    pub open spec fn connected_from(self, from: Point) -> bool {
        forall|p: Point|
            self.in_bounds(p) && #[trigger] self.cell(p).is_open() ==> self.reachable(from, p)
    }

    /// Whether `path` leads from `a` to `b` and no chain of moves from `a`
    /// to `b` is shorter.
    pub open spec fn shortest_between(self, path: Seq<Point>, a: Point, b: Point) -> bool {
        &&& self.walk_between(path, a, b)
        &&& forall|other: Seq<Point>| #[trigger]
            self.walk_between(other, a, b) ==> path.len() <= other.len()
    }

    /// The cells that carry the tag `FinalPath`.
    pub open spec fn final_path_cells(self) -> Set<Point> {
        Set::new(
            |p: Point| self.in_bounds(p) && self.cell(p).cell_type == crate::CellType::FinalPath,
        )
    }

    /// Every neighbour that can be entered from a labelled cell outside
    /// `pending` is labelled too, with a label at most one larger.
    pub open spec fn settled_except(self, label: Map<Point, nat>, pending: Set<Point>) -> bool {
        forall|u: Point, w: Point|
            #[trigger] self.step(u, w) && label.dom().contains(u) && !pending.contains(u)
                ==> label.dom().contains(w) && label[w] <= label[u] + 1
    }

    /// Every point of a walk is a cell of the maze.
    pub proof fn lemma_walk_in_bounds(self, path: Seq<Point>, i: int)
        requires
            self.is_walk(path),
            0 <= i < path.len(),
        ensures
            self.in_bounds(path[i]),
    {
        if i > 0 {
            assert(self.step(path[i - 1], path[i - 1 + 1]));
        }
    }

    /// A walk with one more move at its end is a walk.
    pub proof fn lemma_walk_push(self, path: Seq<Point>, next: Point)
        requires
            self.is_walk(path),
            self.step(path.last(), next),
        ensures
            self.is_walk(path.push(next)),
            path.push(next)[0] == path[0],
            path.push(next).last() == next,
    {
        let longer = path.push(next);
        assert forall|i: int| 0 <= i < longer.len() - 1 implies self.step(
            #[trigger] longer[i],
            longer[i + 1],
        ) by {
            if i < path.len() - 1 {
                assert(self.step(path[i], path[i + 1]));
            }
        }
    }

    /// The beginning of a walk is a walk.
    pub proof fn lemma_walk_prefix(self, path: Seq<Point>, len: int)
        requires
            self.is_walk(path),
            0 < len <= path.len(),
        ensures
            self.is_walk(path.subrange(0, len)),
    {
        let prefix = path.subrange(0, len);
        assert forall|i: int| 0 <= i < prefix.len() - 1 implies self.step(
            #[trigger] prefix[i],
            prefix[i + 1],
        ) by {
            assert(self.step(path[i], path[i + 1]));
        }
    }

    /// Mazes with the same topology have the same moves.
    pub proof fn lemma_same_topology_step(self, other: MazeView, a: Point, b: Point)
        requires
            self.wf(),
            self.same_topology(other),
        ensures
            self.step(a, b) == other.step(a, b),
    {
        if self.in_bounds(a) && self.in_bounds(b) {
            self.lemma_same_topology_passable(other, a, b);
        }
    }

    /// Mazes with the same topology have the same moves out of `a`.
    pub proof fn lemma_same_topology_step_all(self, other: MazeView, a: Point)
        requires
            self.wf(),
            self.same_topology(other),
        ensures
            forall|b: Point| #[trigger] self.step(a, b) == other.step(a, b),
    {
        assert forall|b: Point| #[trigger] self.step(a, b) == other.step(a, b) by {
            self.lemma_same_topology_step(other, a, b);
        }
    }

    /// A cell that a move leads onto can take the tag of a search.
    pub proof fn lemma_step_markable(self, a: Point, b: Point)
        requires
            self.step(a, b),
        ensures
            self.markable(b),
    {
    }

    /// Mazes with the same topology have the same walks.
    pub proof fn lemma_same_topology_walk(self, other: MazeView, path: Seq<Point>)
        requires
            self.wf(),
            self.same_topology(other),
            self.is_walk(path),
        ensures
            other.is_walk(path),
    {
        assert forall|i: int| 0 <= i < path.len() - 1 implies other.step(
            #[trigger] path[i],
            path[i + 1],
        ) by {
            assert(self.step(path[i], path[i + 1]));
            self.lemma_same_topology_passable(other, path[i], path[i + 1]);
        }
    }

    /// A walk that starts at a cell labelled 0 and ends at a cell that has
    /// no label as small as the walk is long passes a pending cell whose
    /// label is at most its position on the walk.
    pub proof fn lemma_frontier_on_walk(
        self,
        label: Map<Point, nat>,
        pending: Set<Point>,
        path: Seq<Point>,
    ) -> (i: int)
        requires
            self.is_walk(path),
            label.dom().contains(path[0]),
            label[path[0]] == 0,
            self.settled_except(label, pending),
            !(label.dom().contains(path.last()) && label[path.last()] <= path.len() - 1),
        ensures
            0 <= i < path.len() - 1,
            pending.contains(path[i]),
            label.dom().contains(path[i]),
            label[path[i]] <= i,
        decreases path.len(),
    {
        let n = path.len() as int;
        assert(n >= 2);
        let before = path[n - 2];
        assert(self.step(path[n - 2], path[n - 2 + 1]));
        if label.dom().contains(before) && label[before] <= n - 2 {
            assert(pending.contains(before));
            n - 2
        } else {
            let prefix = path.subrange(0, n - 1);
            self.lemma_walk_prefix(path, n - 1);
            self.lemma_frontier_on_walk(label, pending, prefix)
        }
    }

    /// A walk is at least as long as the Manhattan distance that it covers.
    pub proof fn lemma_walk_covers_manhattan(self, path: Seq<Point>, from: int)
        requires
            self.is_walk(path),
            0 <= from < path.len(),
        ensures
            path[from].manhattan(path.last()) <= path.len() - 1 - from,
        decreases path.len() - from,
    {
        if from < path.len() - 1 {
            assert(self.step(path[from], path[from + 1]));
            self.lemma_walk_covers_manhattan(path, from + 1);
        }
    }
}

/// The row-major positions of the points of `path`.
pub open spec fn positions(m: MazeView, path: Seq<Point>) -> Seq<int> {
    path.map_values(|p: Point| m.index(p))
}

/// A sequence of pairwise different numbers below `bound` is at most `bound`
/// long.
pub proof fn lemma_distinct_below(s: Seq<int>, bound: nat)
    requires
        s.no_duplicates(),
        forall|i: int| 0 <= i < s.len() ==> 0 <= #[trigger] s[i] < bound,
    ensures
        s.len() <= bound,
{
    s.unique_seq_to_set();
    let range = Set::new(|v: int| 0 <= v < bound);
    assert(range =~= vstd::set_lib::set_int_range(0, bound as int));
    vstd::set_lib::lemma_int_range(0, bound as int);
    assert(s.to_set().subset_of(range)) by {
        assert forall|v: int| s.to_set().contains(v) implies range.contains(v) by {
            let i = choose|i: int| 0 <= i < s.len() && s[i] == v;
            assert(0 <= s[i] < bound);
        }
    }
    vstd::set_lib::lemma_len_subset(s.to_set(), range);
}

impl MazeView {
    /// A chain of pairwise different cells is at most as long as the maze
    /// has cells.
    pub proof fn lemma_distinct_cells_bounded(self, path: Seq<Point>)
        requires
            self.wf(),
            path.no_duplicates(),
            forall|i: int| 0 <= i < path.len() ==> self.in_bounds(#[trigger] path[i]),
        ensures
            path.len() <= self.width * self.height,
    {
        let idx = positions(self, path);
        assert forall|i: int, j: int| 0 <= i < idx.len() && 0 <= j < idx.len()
            && i != j implies idx[i]
            != idx[j] by {
            if idx[i] == idx[j] {
                self.lemma_index_injective(path[i], path[j]);
            }
        }
        assert forall|i: int| 0 <= i < idx.len() implies 0 <= #[trigger] idx[i] < self.width
            * self.height by {
            self.lemma_index_in_range(path[i]);
        }
        lemma_distinct_below(idx, self.width * self.height);
    }
}

} // verus!
