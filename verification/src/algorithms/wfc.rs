use rand::rngs::StdRng;
use vstd::prelude::*;
use super::breadth_search::breadth_first;
use super::directions::lemma_same_entries;
use super::grid::{count_false, lemma_count_false_none, lemma_count_false_update, Grid};
use super::maze_generation::{
    is_valid_request, lemma_opening_keeps_walk, lemma_walk_back, seal_maze, valid_request,
    well_generated, MazeGenerationAlgorithm,
};
use super::pathfinding::{frames_grow, Frame, SnapshotSink};
use super::point::Point;
use super::search::{lemma_tree_walk, trace_back};
use crate::maze::{Maze, MazeType, MazeView};
use crate::maze_cell::{CellType, MazeCell};
use crate::random::{choose_point, random_ratio, shuffle};

verus! {

/// A generator in the manner of wave function collapse: it decides the
/// cells one at a time, those with the fewest paths around them first, at
/// random with odds that depend on the paths around them, and mends the
/// result so that the exit can be reached.
pub struct WFC {}

impl Default for WFC {
    fn default() -> Self {
        WFC {  }
    }
}

/// The cell reached from `p` by `(dx, dy)`, if the maze has such a cell.
pub open spec fn neighbor_at(m: MazeView, p: Point, dx: int, dy: int) -> Option<Point> {
    if 0 <= p.x + dx < m.width && 0 <= p.y + dy < m.height {
        Some(p.shifted(dx, dy))
    } else {
        None
    }
}

/// The cell reached from `p` by `(dx, dy)` as a list: empty if the maze
/// has no such cell.
pub open spec fn neighbor_list(m: MazeView, p: Point, dx: int, dy: int) -> Seq<Point> {
    match neighbor_at(m, p, dx, dy) {
        Some(q) => seq![q],
        None => Seq::empty(),
    }
}

/// The neighbours of `p` that are cells of the maze, in the order down,
/// right, up, left.
pub open spec fn valid_neighbors(m: MazeView, p: Point) -> Seq<Point> {
    neighbor_list(m, p, 0, 1) + neighbor_list(m, p, 1, 0) + neighbor_list(m, p, 0, -1)
        + neighbor_list(m, p, -1, 0)
}

/// Whether the cell reached from `p` by `(dx, dy)` exists and is tagged
/// `Path`.
pub open spec fn path_at(m: MazeView, p: Point, dx: int, dy: int) -> bool {
    neighbor_at(m, p, dx, dy) is Some && m.cell(neighbor_at(m, p, dx, dy)->0).cell_type
        == CellType::Path
}

/// How many of the four neighbours of `p` are tagged `Path`.
pub open spec fn path_neighbor_count(m: MazeView, p: Point) -> nat {
    let down: nat = if path_at(m, p, 0, 1) {
        1
    } else {
        0
    };
    let right: nat = if path_at(m, p, 1, 0) {
        1
    } else {
        0
    };
    let up: nat = if path_at(m, p, 0, -1) {
        1
    } else {
        0
    };
    let left: nat = if path_at(m, p, -1, 0) {
        1
    } else {
        0
    };
    down + right + up + left
}

/// Whether `p` lies on the outer ring of the maze.
pub open spec fn on_border(m: MazeView, p: Point) -> bool {
    p.x == 0 || p.y == 0 || p.x + 1 == m.width || p.y + 1 == m.height
}

/// How undecided a cell is: 0 once it is decided, 2 while fewer than three
/// of its neighbours are paths, else 3.
pub open spec fn entropy_of(m: MazeView, decided: bool, p: Point) -> usize {
    if decided {
        0
    } else if path_neighbor_count(m, p) < 3 {
        2
    } else {
        3
    }
}

/// In how many cases of ten an undecided cell becomes a path, given how
/// many of its neighbours are paths: the more there are, the fewer.
pub open spec fn path_odds_of(path_neighbors: nat) -> u32 {
    if path_neighbors == 0 {
        8
    } else if path_neighbors == 1 {
        7
    } else if path_neighbors == 2 {
        4
    } else {
        2
    }
}

/// The odds of a path are odds in ten, never none, and fall as the paths
/// around the cell grow in number.
pub proof fn theorem_path_odds_fall(fewer: nat, more: nat)
    requires
        fewer <= more,
    ensures
        path_odds_of(more) <= path_odds_of(fewer),
        fewer < more && fewer <= 2 ==> path_odds_of(more) < path_odds_of(fewer),
        0 < path_odds_of(more) <= 10,
{
}

impl WFC {
    /// A generator.
    pub fn new() -> Self {
        WFC {  }
    }

    /// In how many cases of ten an undecided cell with `path_neighbors`
    /// paths around it becomes a path.
    pub fn path_odds(path_neighbors: usize) -> (odds: u32)
        ensures
            odds == path_odds_of(path_neighbors as nat),
    {
        if path_neighbors == 0 {
            8
        } else if path_neighbors == 1 {
            7
        } else if path_neighbors == 2 {
            4
        } else {
            2
        }
    }

    /// Whether the cell reached from `p` by `(dx, dy)` exists and is tagged
    /// `Path`.
    fn is_path_at(maze: &Maze, p: Point, dx: i32, dy: i32) -> (yes: bool)
        requires
            maze.wf(),
            maze@.in_bounds(p),
            -2 <= dx <= 2,
            -2 <= dy <= 2,
        ensures
            yes == path_at(maze@, p, dx as int, dy as int),
    {
        match maze.neighbor(p, dx, dy) {
            Some(q) => maze.get_cell(q).get_type() == CellType::Path,
            None => false,
        }
    }

    /// The neighbours of `(x, y)` that are cells of the maze, in the order
    /// down, right, up, left.
    pub fn get_valid_neighbors(&self, maze: &Maze, x: usize, y: usize) -> (neighbors: Vec<Point>)
        requires
            maze.wf(),
            x < maze.width,
            y < maze.height,
        ensures
            neighbors@ == valid_neighbors(maze@, Point { x, y }),
            neighbors.len() <= 4,
            forall|i: int|
                0 <= i < neighbors.len() ==> maze@.in_bounds(#[trigger] neighbors[i]) && (Point {
                    x,
                    y,
                }).adjacent(neighbors[i]),
            forall|q: Point|
                maze@.in_bounds(q) && (Point { x, y }).adjacent(q)
                    ==> #[trigger] neighbors@.contains(
                    q,
                ),
    {
        let p = Point { x, y };
        let mut neighbors: Vec<Point> = Vec::new();
        let down = maze.neighbor(p, 0, 1);
        let right = maze.neighbor(p, 1, 0);
        let up = maze.neighbor(p, 0, -1);
        let left = maze.neighbor(p, -1, 0);
        let ghost mut at_down: int = 0;
        let ghost mut at_right: int = 0;
        let ghost mut at_up: int = 0;
        match down {
            Some(q) => {
                neighbors.push(q);
            },
            None => {},
        }
        match right {
            Some(q) => {
                proof {
                    at_right = neighbors.len() as int;
                }
                neighbors.push(q);
            },
            None => {},
        }
        match up {
            Some(q) => {
                proof {
                    at_up = neighbors.len() as int;
                }
                neighbors.push(q);
            },
            None => {},
        }
        match left {
            Some(q) => {
                neighbors.push(q);
            },
            None => {},
        }
        proof {
            assert(neighbors@ =~= valid_neighbors(maze@, p));
            assert forall|q: Point|
                maze@.in_bounds(q) && p.adjacent(q) implies #[trigger] neighbors@.contains(q) by {
                if down == Some(q) {
                    assert(neighbors@[at_down] == q);
                } else if right == Some(q) {
                    assert(neighbors@[at_right] == q);
                } else if up == Some(q) {
                    assert(neighbors@[at_up] == q);
                } else {
                    assert(left == Some(q));
                    assert(neighbors@[neighbors.len() - 1] == q);
                }
            }
        }
        neighbors
    }

    /// How many of the four neighbours of `(x, y)` are tagged `Path`.
    pub fn count_path_neighbors(&self, maze: &Maze, x: usize, y: usize) -> (count: usize)
        requires
            maze.wf(),
            x < maze.width,
            y < maze.height,
        ensures
            count == path_neighbor_count(maze@, Point { x, y }),
    {
        let p = Point { x, y };
        let mut count: usize = 0;
        if Self::is_path_at(maze, p, 0, 1) {
            count += 1;
        }
        if Self::is_path_at(maze, p, 1, 0) {
            count += 1;
        }
        if Self::is_path_at(maze, p, 0, -1) {
            count += 1;
        }
        if Self::is_path_at(maze, p, -1, 0) {
            count += 1;
        }
        count
    }

    /// Whether some neighbour of `(x, y)` is tagged `Path`.
    pub fn has_path_neighbor(&self, maze: &Maze, x: usize, y: usize) -> (any: bool)
        requires
            maze.wf(),
            x < maze.width,
            y < maze.height,
        ensures
            any == (path_neighbor_count(maze@, Point { x, y }) > 0),
    {
        let p = Point { x, y };
        Self::is_path_at(maze, p, 0, 1) || Self::is_path_at(maze, p, 1, 0) || Self::is_path_at(
            maze,
            p,
            0,
            -1,
        ) || Self::is_path_at(maze, p, -1, 0)
    }

    /// Whether `(x, y)` lies on the outer ring of the maze.
    pub fn is_border(&self, maze: &Maze, x: usize, y: usize) -> (border: bool)
        requires
            x < maze.width,
            y < maze.height,
        ensures
            border == on_border(maze@, Point { x, y }),
    {
        x == 0 || y == 0 || x == maze.width - 1 || y == maze.height - 1
    }

    /// How undecided the cell at `point` is.
    pub fn calculate_entropy(&self, point: Point, maze: &Maze, collapsed: &Grid<bool>) -> (entropy:
        usize)
        requires
            maze.wf(),
            maze@.in_bounds(point),
            collapsed.wf(),
            collapsed.width == maze.width,
            collapsed.height == maze.height,
        ensures
            entropy == entropy_of(maze@, collapsed.at(point), point),
    {
        if collapsed.get(point) {
            return 0;
        }
        let path_neighbors = self.count_path_neighbors(maze, point.x, point.y);
        if path_neighbors < 3 {
            2
        } else {
            3
        }
    }

    /// A shortest chain of moves from `start` to `end`, if there is any
    /// chain of moves from `start` to `end`. The maze is left as it is.
    pub fn find_path_to_entrance(&self, maze: &mut Maze, start: Point, end: Point) -> (found:
        Option<Vec<Point>>)
        requires
            old(maze).wf(),
            old(maze)@.in_bounds(start),
            old(maze)@.in_bounds(end),
        ensures
            final(maze).wf(),
            final(maze).width == old(maze).width,
            final(maze).height == old(maze).height,
            final(maze).maze_type == old(maze).maze_type,
            final(maze)@ == old(maze)@,
            found is Some <==> old(maze)@.reachable(start, end),
            found is Some ==> old(maze)@.shortest_between((found->0)@, start, end),
    {
        let ghost m0 = maze@;
        let mut quiet = SnapshotSink::disabled();
        let outcome = breadth_first(maze, &mut quiet, start, end, false);
        if outcome.found {
            let route = trace_back(
                &outcome.came_from,
                start,
                end,
                Ghost(m0),
                Ghost(outcome.label@),
            );
            proof {
                lemma_tree_walk(m0, start, outcome.label@, outcome.came_from, end);
                assert(m0.shortest_between(route@, start, end));
            }
            Some(route)
        } else {
            proof {
                if m0.reachable(start, end) {
                    let walk = choose|walk: Seq<Point>| m0.walk_between(walk, start, end);
                    let i = m0.lemma_frontier_on_walk(
                        outcome.label@,
                        Set::<Point>::empty(),
                        walk,
                    );
                }
            }
            None
        }
    }
}

/// What holds of the maze while its cells are decided. The entrance is
/// tagged and decided, every other cell is a wall or a path without walls
/// on its edges, and the cells of the outer ring are walls and decided.
/// `undecided` counts the cells that are not decided yet.
pub open spec fn collapse_inv(
    m: MazeView,
    entrance: Point,
    collapsed: &Grid<bool>,
    undecided: usize,
) -> bool {
    &&& m.wf()
    &&& m.maze_type == MazeType::Thick
    &&& m.width <= i32::MAX
    &&& m.height <= i32::MAX
    &&& m.in_bounds(entrance)
    &&& !on_border(m, entrance)
    &&& collapsed.wf()
    &&& collapsed.width == m.width
    &&& collapsed.height == m.height
    &&& undecided == count_false(collapsed.cells@)
    &&& collapsed.at(entrance)
    &&& m.cell(entrance) == (MazeCell { cell_type: CellType::Entrance, walls: 0 })
    &&& forall|p: Point|
        m.in_bounds(p) && p != entrance ==> (#[trigger] m.cell(p)) == MazeCell::new_spec(
            CellType::Wall,
        ) || m.cell(p) == MazeCell::new_spec(CellType::Path)
    &&& forall|p: Point|
        m.in_bounds(p) && on_border(m, p) ==> (#[trigger] m.cell(p)) == MazeCell::new_spec(
            CellType::Wall,
        )
    &&& forall|p: Point| m.in_bounds(p) && on_border(m, p) ==> #[trigger] collapsed.at(p)
}

/// Whether a cell lies inside the outer ring of the maze `m`.
pub open spec fn inside_ring(m: MazeView) -> spec_fn(Point) -> bool {
    |q: Point| !on_border(m, q)
}

/// The first two entries of `s`, or all of them where it has fewer.
pub open spec fn first_two(s: Seq<Point>) -> Seq<Point> {
    if s.len() <= 2 {
        s
    } else {
        s.subrange(0, 2)
    }
}

/// The cells that are opened beside the entrance before the cells are
/// decided: the first two of its neighbours inside the outer ring, in the
/// order down, right, up, left.
pub open spec fn start_cells(m: MazeView, entrance: Point) -> Seq<Point> {
    first_two(valid_neighbors(m, entrance).filter(inside_ring(m)))
}

/// Whether `q` is opened when the surroundings of the exit are: a
/// neighbour of `exit` inside the outer ring, other than the entrance.
pub open spec fn opened_around(m: MazeView, exit: Point, entrance: Point, q: Point) -> bool {
    m.in_bounds(q) && exit.adjacent(q) && !on_border(m, q) && q != entrance
}

/// What deciding cells does to the cells that were decided before: they
/// stay decided, and one that changes was a wall and becomes a path.
pub open spec fn decided_kept(
    before: MazeView,
    decided_before: &Grid<bool>,
    after: MazeView,
    decided_after: &Grid<bool>,
) -> bool {
    forall|q: Point|
        before.in_bounds(q) && #[trigger] decided_before.at(q) ==> decided_after.at(q) && (
        after.cell(q) == before.cell(q) || after.cell(q) == MazeCell::new_spec(CellType::Path))
}

/// The score of a cell of the outer ring as a place for the exit: the
/// square of its distance from the start, times one more than the number of
/// paths around it.
pub open spec fn exit_score(m: MazeView, start: Point, p: Point) -> int {
    ((p.x - start.x) * (p.x - start.x) + (p.y - start.y) * (p.y - start.y)) * (
    path_neighbor_count(m, p) + 1)
}

impl WFC {
    /// Decides the cell `p` inside the outer ring: makes it a wall or a
    /// path.
    fn decide(
        maze: &mut Maze,
        collapsed: &mut Grid<bool>,
        undecided: &mut usize,
        p: Point,
        tag: CellType,
        Ghost(entrance): Ghost<Point>,
    )
        requires
            old(maze).wf(),
            collapse_inv(old(maze)@, entrance, old(collapsed), *old(undecided)),
            old(maze)@.in_bounds(p),
            !on_border(old(maze)@, p),
            p != entrance,
            tag == CellType::Wall || tag == CellType::Path,
        ensures
            final(maze).wf(),
            final(maze).width == old(maze).width,
            final(maze).height == old(maze).height,
            final(maze).maze_type == old(maze).maze_type,
            final(maze)@.original == old(maze)@.original,
            collapse_inv(final(maze)@, entrance, final(collapsed), *final(undecided)),
            final(maze)@.cell(p) == MazeCell::new_spec(tag),
            final(collapsed).at(p),
            forall|q: Point|
                old(maze)@.in_bounds(q) && q != p ==> #[trigger] final(maze)@.cell(q) == old(
                    maze,
                )@.cell(q),
            forall|q: Point|
                old(maze)@.in_bounds(q) && q != p ==> #[trigger] final(collapsed).at(q) == old(
                    collapsed,
                ).at(q),
            *final(undecided) <= *old(undecided),
            !old(collapsed).at(p) ==> *final(undecided) + 1 == *old(undecided),
            old(collapsed).at(p) ==> *final(undecided) == *old(undecided),
    {
        let ghost m0 = maze@;
        proof {
            m0.lemma_index_in_range(p);
            m0.lemma_marked(p, tag);
            collapsed.lemma_index(p);
        }
        if !collapsed.get(p) {
            proof {
                lemma_count_false_update(collapsed.cells@, p.y * collapsed.width + p.x);
                super::priority_search::lemma_count_false_bound(collapsed.cells@);
            }
            *undecided = *undecided - 1;
        } else {
            assert(collapsed.cells@.update(p.y * collapsed.width + p.x, true) =~= collapsed.cells@);
        }
        collapsed.set(p, true);
        maze.mark_cell(p, tag);
        proof {
            assert forall|q: Point| maze@.in_bounds(q) && q != entrance implies (
            #[trigger] maze@.cell(q)) == MazeCell::new_spec(CellType::Wall) || maze@.cell(q)
                == MazeCell::new_spec(CellType::Path) by {
                if q != p {
                    assert(maze@.cell(q) == m0.cell(q));
                }
            }
            assert forall|q: Point| maze@.in_bounds(q) && on_border(maze@, q) implies (
            #[trigger] maze@.cell(q)) == MazeCell::new_spec(CellType::Wall) by {
                assert(maze@.cell(q) == m0.cell(q));
            }
            assert forall|q: Point|
                maze@.in_bounds(q) && on_border(maze@, q) implies #[trigger] collapsed.at(q) by {
                assert(old(collapsed).at(q));
            }
        }
    }

    /// Marks the cells of the outer ring as decided. They are walls already.
    fn seal_border(maze: &Maze, collapsed: &mut Grid<bool>, undecided: &mut usize)
        requires
            maze.wf(),
            maze.width >= 1,
            maze.height >= 1,
            old(collapsed).wf(),
            old(collapsed).width == maze.width,
            old(collapsed).height == maze.height,
            *old(undecided) == count_false(old(collapsed).cells@),
        ensures
            final(collapsed).wf(),
            final(collapsed).width == maze.width,
            final(collapsed).height == maze.height,
            *final(undecided) == count_false(final(collapsed).cells@),
            forall|p: Point| maze@.in_bounds(p) && on_border(maze@, p)
                ==> #[trigger] final(collapsed).at(p),
    {
        let mut y: usize = 0;
        while y < maze.height
            invariant
                y <= maze.height,
                maze.wf(),
                maze.width >= 1,
                maze.height >= 1,
                collapsed.wf(),
                collapsed.width == maze.width,
                collapsed.height == maze.height,
                *undecided == count_false(collapsed.cells@),
                forall|p: Point|
                    maze@.in_bounds(p) && on_border(maze@, p) && p.y < y
                        ==> #[trigger] collapsed.at(p),
            decreases maze.height - y,
        {
            let mut x: usize = 0;
            while x < maze.width
                invariant
                    y < maze.height,
                    x <= maze.width,
                    maze.wf(),
                    maze.width >= 1,
                    maze.height >= 1,
                    collapsed.wf(),
                    collapsed.width == maze.width,
                    collapsed.height == maze.height,
                    *undecided == count_false(collapsed.cells@),
                    forall|p: Point|
                        maze@.in_bounds(p) && on_border(maze@, p) && (p.y < y || (p.y == y && p.x
                            < x)) ==> #[trigger] collapsed.at(p),
                decreases maze.width - x,
            {
                let p = Point { x, y };
                if (x == 0 || y == 0 || x == maze.width - 1 || y == maze.height - 1)
                    && !collapsed.get(p) {
                    proof {
                        collapsed.lemma_index(p);
                        lemma_count_false_update(collapsed.cells@, p.y * collapsed.width + p.x);
                        super::priority_search::lemma_count_false_bound(collapsed.cells@);
                    }
                    *undecided = *undecided - 1;
                    collapsed.set(p, true);
                }
                x += 1;
            }
            y += 1;
        }
    }

    /// The first undecided cell, in row-major order, among those with the
    /// least entropy.
    pub fn lowest_entropy(&self, maze: &Maze, collapsed: &Grid<bool>) -> (least: Option<Point>)
        requires
            maze.wf(),
            collapsed.wf(),
            collapsed.width == maze.width,
            collapsed.height == maze.height,
        ensures
            least is None <==> forall|p: Point| maze@.in_bounds(p) ==> #[trigger] collapsed.at(p),
            least is Some ==> {
                &&& maze@.in_bounds(least->0)
                &&& !collapsed.at(least->0)
                &&& forall|q: Point|
                    maze@.in_bounds(q) && !(#[trigger] collapsed.at(q)) ==> entropy_of(
                        maze@,
                        false,
                        least->0,
                    ) <= entropy_of(maze@, false, q)
                &&& forall|q: Point|
                    maze@.in_bounds(q) && !(#[trigger] collapsed.at(q)) && (q.y < (least->0).y || (
                    q.y == (least->0).y && q.x < (least->0).x)) ==> entropy_of(
                        maze@,
                        false,
                        least->0,
                    ) < entropy_of(maze@, false, q)
            },
    {
        let mut least: Option<Point> = None;
        let mut least_entropy: usize = usize::MAX;
        let mut y: usize = 0;
        while y < maze.height
            invariant
                y <= maze.height,
                maze.wf(),
                collapsed.wf(),
                collapsed.width == maze.width,
                collapsed.height == maze.height,
                least is None ==> least_entropy == usize::MAX,
                least is None <==> forall|p: Point|
                    maze@.in_bounds(p) && p.y < y ==> #[trigger] collapsed.at(p),
                least is Some ==> {
                    &&& maze@.in_bounds(least->0)
                    &&& !collapsed.at(least->0)
                    &&& least_entropy == entropy_of(maze@, false, least->0)
                    &&& forall|q: Point|
                        maze@.in_bounds(q) && q.y < y && !(#[trigger] collapsed.at(q))
                            ==> least_entropy <= entropy_of(maze@, false, q)
                    &&& (least->0).y < y
                    &&& forall|q: Point|
                        maze@.in_bounds(q) && !(#[trigger] collapsed.at(q)) && (q.y < (least->0).y
                            || (q.y == (least->0).y && q.x < (least->0).x)) ==> least_entropy
                            < entropy_of(maze@, false, q)
                },
            decreases maze.height - y,
        {
            let mut x: usize = 0;
            while x < maze.width
                invariant
                    y < maze.height,
                    x <= maze.width,
                    maze.wf(),
                    collapsed.wf(),
                    collapsed.width == maze.width,
                    collapsed.height == maze.height,
                    least is None ==> least_entropy == usize::MAX,
                    least is None <==> forall|p: Point|
                        maze@.in_bounds(p) && (p.y < y || (p.y == y && p.x < x))
                            ==> #[trigger] collapsed.at(p),
                    least is Some ==> {
                        &&& maze@.in_bounds(least->0)
                        &&& !collapsed.at(least->0)
                        &&& least_entropy == entropy_of(maze@, false, least->0)
                        &&& forall|q: Point|
                            maze@.in_bounds(q) && (q.y < y || (q.y == y && q.x < x)) && !(
                            #[trigger] collapsed.at(q)) ==> least_entropy <= entropy_of(
                                maze@,
                                false,
                                q,
                            )
                        &&& (least->0).y < y || ((least->0).y == y && (least->0).x < x)
                        &&& forall|q: Point|
                            maze@.in_bounds(q) && !(#[trigger] collapsed.at(q)) && (q.y < (
                            least->0).y || (q.y == (least->0).y && q.x < (least->0).x))
                                ==> least_entropy < entropy_of(maze@, false, q)
                    },
                decreases maze.width - x,
            {
                let point = Point { x, y };
                if !collapsed.get(point) {
                    let entropy = self.calculate_entropy(point, maze, collapsed);
                    if entropy > 0 && entropy < least_entropy {
                        least_entropy = entropy;
                        least = Some(point);
                    }
                }
                x += 1;
            }
            y += 1;
        }
        least
    }

    /// Decides the undecided cell `point`: a path with odds of 8, 7, 4 or 2
    /// in 10 where 0, 1, 2 or more of its neighbours are paths, else a
    /// wall. A path without a path around it gets one: the first wall
    /// inside the outer ring among its neighbours, taken in a random order,
    /// becomes a path too.
    #[verifier::rlimit(40)]
    fn collapse(
        &self,
        point: Point,
        maze: &mut Maze,
        collapsed: &mut Grid<bool>,
        undecided: &mut usize,
        rng: &mut StdRng,
        Ghost(entrance): Ghost<Point>,
    )
        requires
            old(maze).wf(),
            collapse_inv(old(maze)@, entrance, old(collapsed), *old(undecided)),
            old(maze)@.in_bounds(point),
            !old(collapsed).at(point),
        ensures
            final(maze).wf(),
            final(maze).width == old(maze).width,
            final(maze).height == old(maze).height,
            final(maze).maze_type == old(maze).maze_type,
            final(maze)@.original == old(maze)@.original,
            collapse_inv(final(maze)@, entrance, final(collapsed), *final(undecided)),
            *final(undecided) < *old(undecided),
            *old(undecided) <= *final(undecided) + 2,
            final(collapsed).at(point),
            decided_kept(old(maze)@, old(collapsed), final(maze)@, final(collapsed)),
    {
        let neighbors = self.get_valid_neighbors(maze, point.x, point.y);
        let path_neighbors = self.count_path_neighbors(maze, point.x, point.y);
        let odds = Self::path_odds(path_neighbors);
        let is_path = random_ratio(rng, odds, 10);
        proof {
            maze@.lemma_index_in_range(point);
        }
        Self::decide(
            maze,
            collapsed,
            undecided,
            point,
            if is_path {
                CellType::Path
            } else {
                CellType::Wall
            },
            Ghost(entrance),
        );
        assert(decided_kept(old(maze)@, old(collapsed), maze@, collapsed));
        if is_path && path_neighbors == 0 {
            let mut shuffled = neighbors;
            let ghost listed = shuffled@;
            shuffle(&mut shuffled, rng);
            proof {
                lemma_same_entries(shuffled@, listed);
                assert forall|k: int| 0 <= k < shuffled.len() implies maze@.in_bounds(
                    #[trigger] shuffled[k],
                ) by {
                    assert(shuffled@.contains(shuffled[k]));
                    let j = choose|j: int| 0 <= j < listed.len() && listed[j] == shuffled[k];
                    assert(old(maze)@.in_bounds(listed[j]));
                }
            }
            let mut i: usize = 0;
            let mut opened = false;
            while i < shuffled.len() && !opened
                invariant
                    i <= shuffled.len(),
                    maze.wf(),
                    maze.width == old(maze).width,
                    maze.height == old(maze).height,
                    maze.maze_type == old(maze).maze_type,
                    maze@.original == old(maze)@.original,
                    collapse_inv(maze@, entrance, collapsed, *undecided),
                    *undecided < *old(undecided),
                    *old(undecided) <= *undecided + if opened {
                        2int
                    } else {
                        1int
                    },
                    maze@.in_bounds(point),
                    collapsed.at(point),
                    decided_kept(old(maze)@, old(collapsed), maze@, collapsed),
                    forall|k: int| 0 <= k < shuffled.len()
                        ==> maze@.in_bounds(#[trigger] shuffled[k]),
                decreases shuffled.len() - i, (if opened { 0int } else { 1int }),
            {
                let neighbor = shuffled[i];
                let ghost before = maze@;
                let ghost decided = *collapsed;
                assert(maze@.in_bounds(shuffled[i as int]));
                if maze.get_cell(neighbor).get_type() == CellType::Wall && !self.is_border(
                    maze,
                    neighbor.x,
                    neighbor.y,
                ) {
                    Self::decide(
                        maze,
                        collapsed,
                        undecided,
                        neighbor,
                        CellType::Path,
                        Ghost(entrance),
                    );
                    opened = true;
                    proof {
                        assert forall|q: Point|
                            old(maze)@.in_bounds(q) && #[trigger] old(collapsed).at(
                                q,
                            ) implies collapsed.at(q) && (maze@.cell(q) == old(maze)@.cell(q)
                            || maze@.cell(q) == MazeCell::new_spec(CellType::Path)) by {
                            if q != neighbor {
                                assert(maze@.cell(q) == before.cell(q));
                                assert(collapsed.at(q) == decided.at(q));
                            }
                        }
                        if point != neighbor {
                            assert(before.in_bounds(point));
                            assert(collapsed.at(point) == decided.at(point));
                        }
                    }
                }
                i += 1;
            }
        }
    }

    /// Makes every cell that is still undecided a path.
    fn fill_undecided(
        maze: &mut Maze,
        collapsed: &mut Grid<bool>,
        undecided: &mut usize,
        Ghost(entrance): Ghost<Point>,
    )
        requires
            old(maze).wf(),
            collapse_inv(old(maze)@, entrance, old(collapsed), *old(undecided)),
        ensures
            final(maze).wf(),
            final(maze).width == old(maze).width,
            final(maze).height == old(maze).height,
            final(maze).maze_type == old(maze).maze_type,
            final(maze)@.original == old(maze)@.original,
            collapse_inv(final(maze)@, entrance, final(collapsed), *final(undecided)),
            forall|p: Point| final(maze)@.in_bounds(p) ==> #[trigger] final(collapsed).at(p),
    {
        let mut y: usize = 0;
        while y < maze.height
            invariant
                y <= maze.height,
                maze.wf(),
                maze.width == old(maze).width,
                maze.height == old(maze).height,
                maze.maze_type == old(maze).maze_type,
                maze@.original == old(maze)@.original,
                collapse_inv(maze@, entrance, collapsed, *undecided),
                forall|p: Point| maze@.in_bounds(p) && p.y < y ==> #[trigger] collapsed.at(p),
            decreases maze.height - y,
        {
            let mut x: usize = 0;
            while x < maze.width
                invariant
                    y < maze.height,
                    x <= maze.width,
                    maze.wf(),
                    maze.width == old(maze).width,
                    maze.height == old(maze).height,
                    maze.maze_type == old(maze).maze_type,
                    maze@.original == old(maze)@.original,
                    collapse_inv(maze@, entrance, collapsed, *undecided),
                    forall|p: Point|
                        maze@.in_bounds(p) && (p.y < y || (p.y == y && p.x < x))
                            ==> #[trigger] collapsed.at(p),
                decreases maze.width - x,
            {
                let point = Point { x, y };
                if !collapsed.get(point) {
                    Self::decide(
                        maze,
                        collapsed,
                        undecided,
                        point,
                        CellType::Path,
                        Ghost(entrance),
                    );
                }
                x += 1;
            }
            y += 1;
        }
    }
}

/// What holds of the maze while its exit is mended: the entrance and the
/// exit are tagged, the exit lies on an edge of the outer ring, every other
/// cell of the outer ring is a wall, and every other cell is a wall or a
/// path, all without walls on their edges.
pub open spec fn mend_inv(m: MazeView, entrance: Point, exit: Point) -> bool {
    &&& m.wf()
    &&& m.maze_type == MazeType::Thick
    &&& m.width <= i32::MAX
    &&& m.height <= i32::MAX
    &&& m.height >= 3
    &&& m.width >= 3
    &&& m.in_bounds(entrance)
    &&& !on_border(m, entrance)
    &&& m.on_boundary_edge(exit)
    &&& m.cell(entrance) == (MazeCell { cell_type: CellType::Entrance, walls: 0 })
    &&& m.cell(exit) == (MazeCell { cell_type: CellType::Exit, walls: 0 })
    &&& forall|p: Point|
        m.in_bounds(p) && p != entrance && p != exit ==> (#[trigger] m.cell(p))
            == MazeCell::new_spec(CellType::Wall) || m.cell(p) == MazeCell::new_spec(
            CellType::Path,
        )
    &&& forall|p: Point|
        m.in_bounds(p) && on_border(m, p) && p != exit ==> (#[trigger] m.cell(p))
            == MazeCell::new_spec(CellType::Wall)
}

impl WFC {
    /// Makes the cell `next` inside the outer ring a path if it is a wall.
    /// It is a neighbour of `current`, which can be reached from the
    /// entrance, and so can `next` afterwards.
    fn open_cell(
        maze: &mut Maze,
        current: Point,
        next: Point,
        Ghost(entrance): Ghost<Point>,
        Ghost(exit): Ghost<Point>,
    )
        requires
            old(maze).wf(),
            mend_inv(old(maze)@, entrance, exit),
            old(maze)@.in_bounds(next),
            !on_border(old(maze)@, next),
            current.adjacent(next),
            old(maze)@.reachable(entrance, current),
        ensures
            final(maze).wf(),
            final(maze).width == old(maze).width,
            final(maze).height == old(maze).height,
            final(maze).maze_type == old(maze).maze_type,
            final(maze)@.original == old(maze)@.original,
            mend_inv(final(maze)@, entrance, exit),
            final(maze)@.reachable(entrance, next),
    {
        let ghost m0 = maze@;
        let ghost walk = choose|walk: Seq<Point>| m0.walk_between(walk, entrance, current);
        proof {
            m0.lemma_index_in_range(next);
            m0.lemma_walk_in_bounds(walk, walk.len() - 1);
        }
        if maze.get_cell(next).get_type() == CellType::Wall {
            proof {
                m0.lemma_marked(next, CellType::Path);
                lemma_opening_keeps_walk(m0, next, CellType::Path, walk);
            }
            maze.mark_cell_as_path(next);
            proof {
                assert forall|p: Point|
                    maze@.in_bounds(p) && p != entrance && p != exit implies (
                #[trigger] maze@.cell(p)) == MazeCell::new_spec(CellType::Wall) || maze@.cell(p)
                    == MazeCell::new_spec(CellType::Path) by {
                    if p != next {
                        assert(maze@.cell(p) == m0.cell(p));
                    }
                }
                assert forall|p: Point|
                    maze@.in_bounds(p) && on_border(maze@, p) && p != exit implies (
                #[trigger] maze@.cell(p)) == MazeCell::new_spec(CellType::Wall) by {
                    assert(maze@.cell(p) == m0.cell(p));
                }
            }
        }
        proof {
            assert(maze@.cell(next).is_open());
            maze@.lemma_walk_push(walk, next);
            assert(maze@.walk_between(walk.push(next), entrance, next));
        }
    }

    /// Opens a corridor inside the outer ring from the entrance to
    /// `target`: along the row of the entrance to the column of `target`,
    /// then along that column. Afterwards `target` can be reached from the
    /// entrance.
    fn carve_corridor(
        maze: &mut Maze,
        entrance: Point,
        target: Point,
        Ghost(exit): Ghost<Point>,
    )
        requires
            old(maze).wf(),
            mend_inv(old(maze)@, entrance, exit),
            old(maze)@.in_bounds(target),
            !on_border(old(maze)@, target),
        ensures
            final(maze).wf(),
            final(maze).width == old(maze).width,
            final(maze).height == old(maze).height,
            final(maze).maze_type == old(maze).maze_type,
            final(maze)@.original == old(maze)@.original,
            mend_inv(final(maze)@, entrance, exit),
            final(maze)@.reachable(entrance, target),
    {
        let mut current = entrance;
        proof {
            assert(maze@.walk_between(seq![entrance], entrance, entrance));
        }
        while current.x != target.x
            invariant
                maze.wf(),
                maze.width == old(maze).width,
                maze.height == old(maze).height,
                maze.maze_type == old(maze).maze_type,
                maze@.original == old(maze)@.original,
                mend_inv(maze@, entrance, exit),
                maze@.in_bounds(target),
                !on_border(maze@, target),
                current.y == entrance.y,
                (entrance.x <= current.x <= target.x) || (target.x <= current.x <= entrance.x),
                maze@.reachable(entrance, current),
            decreases
                    if current.x >= target.x {
                        current.x - target.x
                    } else {
                        target.x - current.x
                    },
        {
            let next = if current.x < target.x {
                Point { x: current.x + 1, y: current.y }
            } else {
                Point { x: current.x - 1, y: current.y }
            };
            Self::open_cell(maze, current, next, Ghost(entrance), Ghost(exit));
            current = next;
        }
        while current.y != target.y
            invariant
                maze.wf(),
                maze.width == old(maze).width,
                maze.height == old(maze).height,
                maze.maze_type == old(maze).maze_type,
                maze@.original == old(maze)@.original,
                mend_inv(maze@, entrance, exit),
                maze@.in_bounds(target),
                !on_border(maze@, target),
                current.x == target.x,
                (entrance.y <= current.y <= target.y) || (target.y <= current.y <= entrance.y),
                maze@.reachable(entrance, current),
            decreases
                    if current.y >= target.y {
                        current.y - target.y
                    } else {
                        target.y - current.y
                    },
        {
            let next = if current.y < target.y {
                Point { x: current.x, y: current.y + 1 }
            } else {
                Point { x: current.x, y: current.y - 1 }
            };
            Self::open_cell(maze, current, next, Ghost(entrance), Ghost(exit));
            current = next;
        }
    }

    /// Makes sure that the exit can be reached from the entrance: where the
    /// search from the exit does not come to the entrance, opens a corridor
    /// from the entrance to the cell inside the outer ring next to the exit.
    fn mend_exit(&self, maze: &mut Maze, entrance: Point, exit: Point)
        requires
            old(maze).wf(),
            mend_inv(old(maze)@, entrance, exit),
        ensures
            final(maze).wf(),
            final(maze).width == old(maze).width,
            final(maze).height == old(maze).height,
            final(maze).maze_type == old(maze).maze_type,
            final(maze)@.original == old(maze)@.original,
            mend_inv(final(maze)@, entrance, exit),
            final(maze)@.reachable(entrance, exit),
            old(maze)@.reachable(exit, entrance) ==> final(maze)@ == old(maze)@,
    {
        proof {
            maze@.lemma_index_in_range(exit);
        }
        match self.find_path_to_entrance(maze, exit, entrance) {
            Some(path) => {
                proof {
                    lemma_walk_back(maze@, path@);
                    assert(maze@.walk_between(path@.reverse(), entrance, exit));
                }
            },
            None => {
                let target = if exit.y == 0 {
                    Point { x: exit.x, y: 1 }
                } else if exit.y == maze.height - 1 {
                    Point { x: exit.x, y: exit.y - 1 }
                } else if exit.x == 0 {
                    Point { x: 1, y: exit.y }
                } else {
                    Point { x: exit.x - 1, y: exit.y }
                };
                Self::carve_corridor(maze, entrance, target, Ghost(exit));
                proof {
                    let walk = choose|walk: Seq<Point>| maze@.walk_between(walk, entrance, target);
                    maze@.lemma_index_in_range(exit);
                    assert(maze@.cell(exit).is_open());
                    maze@.lemma_walk_push(walk, exit);
                    assert(maze@.walk_between(walk.push(exit), entrance, exit));
                }
            },
        }
    }
}

/// The cells of the outer ring that the choice of the exit has looked at
/// when it has done the top and bottom rows up to column `x` and the left
/// and right columns up to row `y`.
pub open spec fn considered(m: MazeView, q: Point, x: int, y: int) -> bool {
    ||| (q.y == 0 || q.y + 1 == m.height) && q.x < x
    ||| (q.x == 0 || q.x + 1 == m.width) && 1 <= q.y < y
}

/// Whether `best` with its score is the best place for the exit among the
/// cells that were looked at: it has a path around it and no cell that was
/// looked at and has a path around it scores higher; or there is no such
/// cell.
pub open spec fn best_so_far(
    m: MazeView,
    start: Point,
    best: Option<(Point, usize)>,
    best_score: u128,
    x: int,
    y: int,
) -> bool {
    &&& best is None ==> best_score == 0
    &&& best is None <==> forall|q: Point|
        m.in_bounds(q) && considered(m, q, x, y) ==> #[trigger] path_neighbor_count(m, q) == 0
    &&& best is Some ==> {
        &&& m.in_bounds((best->0).0)
        &&& on_border(m, (best->0).0)
        &&& (best->0).1 == path_neighbor_count(m, (best->0).0)
        &&& (best->0).1 > 0
        &&& best_score == exit_score(m, start, (best->0).0)
        &&& forall|q: Point|
            m.in_bounds(q) && considered(m, q, x, y) && #[trigger] path_neighbor_count(m, q) > 0
                ==> exit_score(m, start, q) <= best_score
    }
}

impl WFC {
    /// Looks at `candidate` as a place for the exit: it takes the place of
    /// `best` where it has a path around it and scores higher.
    fn consider(
        &self,
        maze: &Maze,
        start: Point,
        candidate: Point,
        best: Option<(Point, usize)>,
        best_score: u128,
    ) -> (better: (Option<(Point, usize)>, u128))
        requires
            maze.wf(),
            maze@.in_bounds(start),
            maze@.in_bounds(candidate),
            !on_border(maze@, start),
            on_border(maze@, candidate),
        ensures
            better == if path_neighbor_count(maze@, candidate) > 0 && exit_score(
                maze@,
                start,
                candidate,
            ) > best_score {
                (
                    Some((candidate, path_neighbor_count(maze@, candidate) as usize)),
                    exit_score(maze@, start, candidate) as u128,
                )
            } else {
                (best, best_score)
            },
            0 < exit_score(maze@, start, candidate) <= u128::MAX,
    {
        let dx: u128 = if candidate.x >= start.x {
            (candidate.x - start.x) as u128
        } else {
            (start.x - candidate.x) as u128
        };
        let dy: u128 = if candidate.y >= start.y {
            (candidate.y - start.y) as u128
        } else {
            (start.y - candidate.y) as u128
        };
        let path_count = self.count_path_neighbors(maze, candidate.x, candidate.y);
        proof {
            let ix = candidate.x - start.x;
            let iy = candidate.y - start.y;
            assert(dx * dx == ix * ix && dy * dy == iy * iy && dx * dx <= 0x7fff_ffff
                * 0x7fff_ffff && dy * dy <= 0x7fff_ffff * 0x7fff_ffff && dx * dx + dy * dy >= 1)
                by (nonlinear_arith)
                requires
                    dx == ix || dx == -ix,
                    dy == iy || dy == -iy,
                    0 <= dx <= 0x7fff_ffff,
                    0 <= dy <= 0x7fff_ffff,
                    dx != 0 || dy != 0,
            ;
            assert((dx * dx + dy * dy) * (path_count + 1)
                <= 5 * (2 * (0x7fff_ffff * 0x7fff_ffff)) && (
            dx * dx + dy * dy) * (path_count + 1) >= 1) by (nonlinear_arith)
                requires
                    1 <= dx * dx + dy * dy <= 2 * (0x7fff_ffff * 0x7fff_ffff),
                    0 <= path_count <= 4,
            ;
        }
        let score: u128 = (dx * dx + dy * dy) * (path_count as u128 + 1);
        if path_count > 0 && score > best_score {
            (Some((candidate, path_count)), score)
        } else {
            (best, best_score)
        }
    }

    /// The best place for the exit on the outer ring: among the cells of
    /// the ring that have a path around them, the one with the highest
    /// score, with the number of paths around it.
    #[verifier::rlimit(40)]
    pub fn select_exit(&self, maze: &Maze, start: Point) -> (best: Option<(Point, usize)>)
        requires
            maze.wf(),
            maze.width >= 3,
            maze.height >= 3,
            maze@.in_bounds(start),
            !on_border(maze@, start),
        ensures
            best is None <==> forall|q: Point|
                maze@.in_bounds(q) && on_border(maze@, q) ==> #[trigger] path_neighbor_count(
                    maze@,
                    q,
                ) == 0,
            best is Some ==> {
                &&& maze@.in_bounds((best->0).0)
                &&& on_border(maze@, (best->0).0)
                &&& (best->0).1 == path_neighbor_count(maze@, (best->0).0)
                &&& (best->0).1 > 0
                &&& forall|q: Point|
                    maze@.in_bounds(q) && on_border(maze@, q) && #[trigger] path_neighbor_count(
                        maze@,
                        q,
                    ) > 0 ==> exit_score(maze@, start, q) <= exit_score(
                        maze@,
                        start,
                        (best->0).0,
                    )
            },
    {
        let mut best: Option<(Point, usize)> = None;
        let mut best_score: u128 = 0;
        let mut x: usize = 0;
        while x < maze.width
            invariant
                x <= maze.width,
                maze.wf(),
                maze.width >= 3,
                maze.height >= 3,
                maze@.in_bounds(start),
                !on_border(maze@, start),
                best_so_far(maze@, start, best, best_score, x as int, 1),
            decreases maze.width - x,
        {
            let top = Point { x, y: 0 };
            let bottom = Point { x, y: maze.height - 1 };
            let ghost before = (best, best_score);
            let first = self.consider(maze, start, top, best, best_score);
            let second = self.consider(maze, start, bottom, first.0, first.1);
            best = second.0;
            best_score = second.1;
            proof {
                let m = maze@;
                assert forall|q: Point|
                    m.in_bounds(q) && considered(m, q, x as int + 1, 1)
                        && #[trigger] path_neighbor_count(
                        m,
                        q,
                    ) > 0 implies best is Some && exit_score(m, start, q) <= best_score by {
                    assert(first.1 >= before.1 && second.1 >= first.1);
                    if considered(m, q, x as int, 1) {
                        assert(before.0 is Some);
                        assert(exit_score(m, start, q) <= before.1);
                    } else {
                        assert(q == top || q == bottom);
                    }
                }
                if best is None {
                    assert(first.0 is None && before.0 is None);
                }
            }
            x += 1;
        }
        let mut y: usize = 1;
        while y < maze.height - 1
            invariant
                1 <= y <= maze.height - 1,
                maze.wf(),
                maze.width >= 3,
                maze.height >= 3,
                maze@.in_bounds(start),
                !on_border(maze@, start),
                best_so_far(maze@, start, best, best_score, maze.width as int, y as int),
            decreases maze.height - y,
        {
            let left = Point { x: 0, y };
            let right = Point { x: maze.width - 1, y };
            let ghost before = (best, best_score);
            let first = self.consider(maze, start, left, best, best_score);
            let second = self.consider(maze, start, right, first.0, first.1);
            best = second.0;
            best_score = second.1;
            proof {
                let m = maze@;
                assert forall|q: Point|
                    m.in_bounds(q) && considered(m, q, maze.width as int, y as int + 1)
                        && #[trigger] path_neighbor_count(m, q) > 0 implies best is Some
                    && exit_score(m, start, q) <= best_score by {
                    assert(first.1 >= before.1 && second.1 >= first.1);
                    if considered(m, q, maze.width as int, y as int) {
                        assert(before.0 is Some);
                        assert(exit_score(m, start, q) <= before.1);
                    } else {
                        assert(q == left || q == right);
                    }
                }
                if best is None {
                    assert(first.0 is None && before.0 is None);
                }
            }
            y += 1;
        }
        proof {
            let m = maze@;
            assert forall|q: Point| m.in_bounds(q) && on_border(m, q) implies considered(
                m,
                q,
                maze.width as int,
                y as int,
            ) by {}
        }
        best
    }

    /// Makes up to two neighbours of the entrance inside the outer ring
    /// paths, in the order down, right, up, left, and marks them as
    /// decided. Nothing else changes.
    fn seed_start(
        &self,
        maze: &mut Maze,
        collapsed: &mut Grid<bool>,
        undecided: &mut usize,
        entrance: Point,
    )
        requires
            old(maze).wf(),
            collapse_inv(old(maze)@, entrance, old(collapsed), *old(undecided)),
        ensures
            final(maze).wf(),
            final(maze).width == old(maze).width,
            final(maze).height == old(maze).height,
            final(maze).maze_type == old(maze).maze_type,
            final(maze)@.original == old(maze)@.original,
            collapse_inv(final(maze)@, entrance, final(collapsed), *final(undecided)),
            forall|q: Point|
                old(maze)@.in_bounds(q) ==> #[trigger] final(maze)@.cell(q) == if start_cells(
                    old(maze)@,
                    entrance,
                ).contains(q) {
                    MazeCell::new_spec(CellType::Path)
                } else {
                    old(maze)@.cell(q)
                },
            forall|q: Point|
                old(maze)@.in_bounds(q) ==> #[trigger] final(collapsed).at(q) == (old(
                    collapsed,
                ).at(q) || start_cells(old(maze)@, entrance).contains(q)),
    {
        let ghost m0 = maze@;
        let neighbors = self.get_valid_neighbors(maze, entrance.x, entrance.y);
        let ghost mut inner: Seq<Point> = Seq::empty();
        let mut path_count: usize = 0;
        let mut k: usize = 0;
        proof {
            lemma_filter_none(m0);
            assert(neighbors@.subrange(0, 0) =~= Seq::<Point>::empty());
        }
        while k < neighbors.len()
            invariant
                k <= neighbors.len(),
                neighbors.len() <= 4,
                forall|i: int|
                    0 <= i < neighbors.len() ==> m0.in_bounds(#[trigger] neighbors[i])
                        && entrance.adjacent(neighbors[i]),
                inner == neighbors@.subrange(0, k as int).filter(inside_ring(m0)),
                path_count == first_two(inner).len(),
                m0 == old(maze)@,
                maze.wf(),
                maze.width == old(maze).width,
                maze.height == old(maze).height,
                maze.maze_type == old(maze).maze_type,
                maze@.original == old(maze)@.original,
                collapse_inv(maze@, entrance, collapsed, *undecided),
                forall|q: Point|
                    m0.in_bounds(q) ==> #[trigger] maze@.cell(q) == if first_two(inner).contains(
                        q,
                    ) {
                        MazeCell::new_spec(CellType::Path)
                    } else {
                        m0.cell(q)
                    },
                forall|q: Point|
                    m0.in_bounds(q) ==> #[trigger] collapsed.at(q) == (old(collapsed).at(q)
                        || first_two(inner).contains(q)),
            decreases neighbors.len() - k,
        {
            let next = neighbors[k];
            let ghost seen = inner;
            let ghost before = maze@;
            let ghost decided = *collapsed;
            proof {
                assert(m0.in_bounds(neighbors[k as int]));
                lemma_filter_next(neighbors@, k as int, m0);
                if !on_border(m0, next) {
                    inner = seen.push(next);
                }
                lemma_first_two_push(seen, next);
            }
            if !self.is_border(maze, next.x, next.y) && path_count < 2 {
                Self::decide(maze, collapsed, undecided, next, CellType::Path, Ghost(entrance));
                path_count += 1;
                proof {
                    assert(first_two(inner) == first_two(seen).push(next));
                    assert forall|q: Point| m0.in_bounds(q) implies #[trigger] maze@.cell(q)
                        == if first_two(inner).contains(q) {
                        MazeCell::new_spec(CellType::Path)
                    } else {
                        m0.cell(q)
                    } by {
                        if q != next {
                            assert(maze@.cell(q) == before.cell(q));
                        }
                    }
                    assert forall|q: Point| m0.in_bounds(q) implies #[trigger] collapsed.at(q) == (
                    old(collapsed).at(q) || first_two(inner).contains(q)) by {
                        if q != next {
                            assert(collapsed.at(q) == decided.at(q));
                        }
                    }
                }
            } else {
                assert(first_two(inner) == first_two(seen));
            }
            k += 1;
        }
        proof {
            assert(neighbors@.subrange(0, neighbors.len() as int) =~= neighbors@);
        }
    }

    /// Makes the neighbours of `exit` inside the outer ring paths, but for
    /// the entrance, and marks them as decided. Nothing else changes.
    fn widen_exit(
        &self,
        maze: &mut Maze,
        collapsed: &mut Grid<bool>,
        undecided: &mut usize,
        exit: Point,
        entrance: Point,
    )
        requires
            old(maze).wf(),
            collapse_inv(old(maze)@, entrance, old(collapsed), *old(undecided)),
            old(maze)@.in_bounds(exit),
        ensures
            final(maze).wf(),
            final(maze).width == old(maze).width,
            final(maze).height == old(maze).height,
            final(maze).maze_type == old(maze).maze_type,
            final(maze)@.original == old(maze)@.original,
            collapse_inv(final(maze)@, entrance, final(collapsed), *final(undecided)),
            forall|q: Point|
                old(maze)@.in_bounds(q) ==> #[trigger] final(maze)@.cell(q) == if opened_around(
                    old(maze)@,
                    exit,
                    entrance,
                    q,
                ) {
                    MazeCell::new_spec(CellType::Path)
                } else {
                    old(maze)@.cell(q)
                },
            forall|q: Point|
                old(maze)@.in_bounds(q) ==> #[trigger] final(collapsed).at(q) == (old(
                    collapsed,
                ).at(q) || opened_around(old(maze)@, exit, entrance, q)),
    {
        let ghost m0 = maze@;
        let neighbors = self.get_valid_neighbors(maze, exit.x, exit.y);
        let mut k: usize = 0;
        while k < neighbors.len()
            invariant
                k <= neighbors.len(),
                forall|i: int|
                    0 <= i < neighbors.len() ==> m0.in_bounds(#[trigger] neighbors[i])
                        && exit.adjacent(neighbors[i]),
                m0 == old(maze)@,
                maze.wf(),
                maze.width == old(maze).width,
                maze.height == old(maze).height,
                maze.maze_type == old(maze).maze_type,
                maze@.original == old(maze)@.original,
                collapse_inv(maze@, entrance, collapsed, *undecided),
                forall|q: Point|
                    m0.in_bounds(q) ==> #[trigger] maze@.cell(q) == if neighbors@.subrange(
                        0,
                        k as int,
                    ).contains(q) && opened_around(m0, exit, entrance, q) {
                        MazeCell::new_spec(CellType::Path)
                    } else {
                        m0.cell(q)
                    },
                forall|q: Point|
                    m0.in_bounds(q) ==> #[trigger] collapsed.at(q) == (old(collapsed).at(q) || (
                    neighbors@.subrange(0, k as int).contains(q) && opened_around(
                        m0,
                        exit,
                        entrance,
                        q,
                    ))),
            decreases neighbors.len() - k,
        {
            let next = neighbors[k];
            let ghost before = maze@;
            let ghost decided = *collapsed;
            proof {
                assert(m0.in_bounds(neighbors[k as int]));
                lemma_seen_next(neighbors@, k as int);
            }
            if !self.is_border(maze, next.x, next.y) && next != entrance {
                Self::decide(maze, collapsed, undecided, next, CellType::Path, Ghost(entrance));
                proof {
                    assert forall|q: Point| m0.in_bounds(q) implies #[trigger] maze@.cell(q)
                        == if neighbors@.subrange(0, k as int + 1).contains(q) && opened_around(
                        m0,
                        exit,
                        entrance,
                        q,
                    ) {
                        MazeCell::new_spec(CellType::Path)
                    } else {
                        m0.cell(q)
                    } by {
                        if q != next {
                            assert(maze@.cell(q) == before.cell(q));
                        }
                    }
                    assert forall|q: Point| m0.in_bounds(q) implies #[trigger] collapsed.at(q) == (
                    old(collapsed).at(q) || (neighbors@.subrange(0, k as int + 1).contains(q)
                        && opened_around(m0, exit, entrance, q))) by {
                        if q != next {
                            assert(collapsed.at(q) == decided.at(q));
                        }
                    }
                }
            }
            k += 1;
        }
        proof {
            assert(neighbors@.subrange(0, neighbors.len() as int) =~= neighbors@);
        }
    }

    /// Decides the cells one at a time, those with the least entropy
    /// first, until every cell is decided, and sends a snapshot after each
    /// round. A round decides one cell, or two. No more rounds are made
    /// than twice as many as there are cells.
    fn collapse_all(
        &self,
        maze: &mut Maze,
        collapsed: &mut Grid<bool>,
        undecided: &mut usize,
        rng: &mut StdRng,
        sink: &mut SnapshotSink,
        Ghost(entrance): Ghost<Point>,
        Ghost(frames0): Ghost<Seq<Frame>>,
    )
        requires
            old(maze).wf(),
            collapse_inv(old(maze)@, entrance, old(collapsed), *old(undecided)),
            frames_grow(frames0, old(sink)@),
        ensures
            final(maze).wf(),
            final(maze).width == old(maze).width,
            final(maze).height == old(maze).height,
            final(maze).maze_type == old(maze).maze_type,
            final(maze)@.original == old(maze)@.original,
            collapse_inv(final(maze)@, entrance, final(collapsed), *final(undecided)),
            final(sink).follows(old(sink)),
            frames_grow(frames0, final(sink)@),
            *final(undecided) == 0,
            forall|p: Point| old(maze)@.in_bounds(p) ==> #[trigger] final(collapsed).at(p),
            decided_kept(old(maze)@, old(collapsed), final(maze)@, final(collapsed)),
            frames_grow(old(sink)@, final(sink)@),
            final(sink)@.len() - old(sink)@.len() <= *old(undecided),
            *old(undecided) <= 2 * (final(sink)@.len() - old(sink)@.len()),
            forall|i: int|
                old(sink)@.len() <= i < final(sink)@.len() ==> (#[trigger] final(sink)@[i]).0
                    is None,
            *old(undecided) > 0 ==> final(sink)@.last().1 == final(maze)@,
            *old(undecided) == 0 ==> final(maze)@ == old(maze)@,
    {
        assert(maze.width * maze.height <= 0x7fff_ffff * 0x7fff_ffff) by (nonlinear_arith)
            requires
                maze.width <= 0x7fff_ffff,
                maze.height <= 0x7fff_ffff,
        ;
        let max_rounds: u64 = 2 * ((maze.width as u64) * (maze.height as u64));
        let mut rounds: u64 = 0;
        let ghost mut sent: int = 0;
        proof {
            super::priority_search::lemma_count_false_bound(collapsed.cells@);
            assert(sink@.subrange(0, sink@.len() as int) =~= sink@);
        }
        while *undecided > 0 && rounds < max_rounds
            invariant
                rounds <= max_rounds,
                *undecided + rounds <= max_rounds,
                maze.wf(),
                maze.width == old(maze).width,
                maze.height == old(maze).height,
                maze.maze_type == old(maze).maze_type,
                maze@.original == old(maze)@.original,
                collapse_inv(maze@, entrance, collapsed, *undecided),
                sink.follows(old(sink)),
                frames_grow(frames0, sink@),
                decided_kept(old(maze)@, old(collapsed), maze@, collapsed),
                frames_grow(old(sink)@, sink@),
                sent == sink@.len() - old(sink)@.len(),
                *undecided + sent <= *old(undecided),
                *old(undecided) <= *undecided + 2 * sent,
                forall|i: int| old(sink)@.len() <= i < sink@.len() ==> (#[trigger] sink@[i]).0
                    is None,
                sent > 0 ==> sink@.last().1 == maze@,
                sent == 0 ==> maze@ == old(maze)@,
            decreases max_rounds - rounds,
        {
            rounds += 1;
            match self.lowest_entropy(maze, collapsed) {
                Some(point) => {
                    let ghost before = maze@;
                    let ghost decided = *collapsed;
                    let ghost shown = sink@;
                    self.collapse(point, maze, collapsed, undecided, rng, Ghost(entrance));
                    sink.record(maze, Ghost(frames0));
                    proof {
                        sent = sent + 1;
                        assert forall|q: Point|
                            old(maze)@.in_bounds(q) && #[trigger] old(collapsed).at(
                                q,
                            ) implies collapsed.at(q) && (maze@.cell(q) == old(maze)@.cell(q)
                            || maze@.cell(q) == MazeCell::new_spec(CellType::Path)) by {
                            assert(decided.at(q));
                        }
                        assert(sink@.subrange(0, old(sink)@.len() as int) =~= shown.subrange(
                            0,
                            old(sink)@.len() as int,
                        ));
                        assert forall|i: int| old(sink)@.len() <= i < sink@.len() implies (
                        #[trigger] sink@[i]).0 is None by {
                            if i < shown.len() {
                                assert(sink@[i] == shown[i]);
                            }
                        }
                    }
                },
                None => {
                    proof {
                        lemma_all_decided(maze@, collapsed);
                    }
                    rounds = max_rounds;
                },
            }
        }
        proof {
            lemma_none_undecided(maze@, collapsed);
        }
    }
}

impl WFC {
    /// A maze of walls with the entrance tagged, in which the entrance and
    /// the cells of the outer ring are decided.
    #[verifier::rlimit(40)]
    fn prepare(width: usize, height: usize, entrance: Point) -> (start: (Maze, Grid<bool>, usize))
        requires
            valid_request(width, height, entrance),
        ensures
            start.0.wf(),
            start.0.width == width,
            start.0.height == height,
            start.0.maze_type == MazeType::Thick,
            collapse_inv(start.0@, entrance, &start.1, start.2),
    {
        let mut maze = Maze::new(width, height, MazeType::Thick, Some(CellType::Wall));
        let mut collapsed: Grid<bool> = Grid::new(width, height, false);
        let mut undecided: usize = width * height;
        proof {
            lemma_all_false(collapsed.cells@);
            assert forall|p: Point| maze@.in_bounds(p) implies #[trigger] maze@.cell(p)
                == MazeCell::new_spec(CellType::Wall) by {
                maze@.lemma_index_in_range(p);
            }
        }
        Self::seal_border(&maze, &mut collapsed, &mut undecided);
        let ghost walls = maze@;
        proof {
            walls.lemma_marked(entrance, CellType::Entrance);
            walls.lemma_index_in_range(entrance);
            collapsed.lemma_index(entrance);
            if !collapsed.at(entrance) {
                lemma_count_false_update(
                    collapsed.cells@,
                    entrance.y * collapsed.width + entrance.x,
                );
                super::priority_search::lemma_count_false_bound(collapsed.cells@);
            } else {
                assert(collapsed.cells@.update(entrance.y * collapsed.width + entrance.x, true)
                    =~= collapsed.cells@);
            }
        }
        maze.mark_cell_as_entrance(entrance);
        if !collapsed.get(entrance) {
            undecided = undecided - 1;
        }
        let ghost sealed = collapsed;
        collapsed.set(entrance, true);
        proof {
            assert forall|p: Point| maze@.in_bounds(p) && p != entrance implies (
            #[trigger] maze@.cell(p)) == MazeCell::new_spec(CellType::Wall) || maze@.cell(p)
                == MazeCell::new_spec(CellType::Path) by {
                assert(maze@.cell(p) == walls.cell(p));
            }
            assert forall|p: Point| maze@.in_bounds(p) && on_border(maze@, p) implies (
            #[trigger] maze@.cell(p)) == MazeCell::new_spec(CellType::Wall) by {
                assert(maze@.cell(p) == walls.cell(p));
            }
            assert forall|p: Point|
                maze@.in_bounds(p) && on_border(maze@, p) implies #[trigger] collapsed.at(p) by {
                assert(sealed.at(p));
            }
        }
        (maze, collapsed, undecided)
    }

    /// Chooses the exit: the cell of the outer ring that scores highest
    /// among those with a path around them, whose surroundings are opened
    /// where it has fewer than two paths around it; or, where no cell of the
    /// ring has a path around it, one of four fixed cells of the ring, drawn
    /// at random.
    fn choose_exit(
        &self,
        maze: &mut Maze,
        collapsed: &mut Grid<bool>,
        undecided: &mut usize,
        entrance: Point,
        rng: &mut StdRng,
    ) -> (exit: Point)
        requires
            old(maze).wf(),
            old(maze).width >= 3,
            old(maze).height >= 3,
            collapse_inv(old(maze)@, entrance, old(collapsed), *old(undecided)),
        ensures
            final(maze).wf(),
            final(maze).width == old(maze).width,
            final(maze).height == old(maze).height,
            final(maze).maze_type == old(maze).maze_type,
            final(maze)@.original == old(maze)@.original,
            collapse_inv(final(maze)@, entrance, final(collapsed), *final(undecided)),
            final(maze)@.on_boundary_edge(exit),
    {
        match self.select_exit(maze, entrance) {
            Some((best, path_count)) => {
                proof {
                    lemma_ring_candidate(maze@, entrance, collapsed, *undecided, best);
                }
                if path_count < 2 {
                    self.widen_exit(maze, collapsed, undecided, best, entrance);
                }
                best
            },
            None => {
                let border_points = vec![
                    Point { x: maze.width - 2, y: maze.height - 1 },
                    Point { x: maze.width - 1, y: maze.height - 2 },
                    Point { x: 1, y: 0 },
                    Point { x: 0, y: 1 },
                ];
                let ghost listed = border_points@;
                proof {
                    assert(listed[0] == Point {
                        x: (maze.width - 2) as usize,
                        y: (maze.height - 1) as usize,
                    });
                    assert(listed[1] == Point {
                        x: (maze.width - 1) as usize,
                        y: (maze.height - 2) as usize,
                    });
                    assert(listed[2] == Point { x: 1, y: 0 });
                    assert(listed[3] == Point { x: 0, y: 1 });
                }
                let chosen = choose_point(&border_points, rng).unwrap();
                proof {
                    let i = choose|i: int| 0 <= i < listed.len() && listed[i] == chosen;
                }
                chosen
            },
        }
    }

    /// Tags the exit, makes sure that it can be reached, and takes the
    /// result as the snapshot.
    fn finish(
        &self,
        maze: &mut Maze,
        entrance: Point,
        exit: Point,
        Ghost(collapsed): Ghost<Grid<bool>>,
        Ghost(undecided): Ghost<usize>,
    )
        requires
            old(maze).wf(),
            valid_request(old(maze).width, old(maze).height, entrance),
            collapse_inv(old(maze)@, entrance, &collapsed, undecided),
            old(maze)@.on_boundary_edge(exit),
        ensures
            final(maze).wf(),
            final(maze).width == old(maze).width,
            final(maze).height == old(maze).height,
            final(maze).maze_type == old(maze).maze_type,
            well_generated(
                final(maze)@,
                old(maze).maze_type,
                old(maze).width,
                old(maze).height,
                entrance,
            ),
            final(maze)@.exit() == Some(exit),
            mend_inv(final(maze)@, entrance, exit),
    {
        let ghost decided = maze@;
        proof {
            decided.lemma_marked(exit, CellType::Exit);
            decided.lemma_index_in_range(exit);
        }
        maze.mark_cell_as_exit(exit);
        proof {
            assert forall|p: Point|
                maze@.in_bounds(p) && p != entrance && p != exit implies (#[trigger] maze@.cell(
                p,
            )) == MazeCell::new_spec(CellType::Wall) || maze@.cell(p) == MazeCell::new_spec(
                CellType::Path,
            ) by {
                assert(maze@.cell(p) == decided.cell(p));
            }
            assert forall|p: Point|
                maze@.in_bounds(p) && on_border(maze@, p) && p != exit implies (
            #[trigger] maze@.cell(p)) == MazeCell::new_spec(CellType::Wall) by {
                assert(maze@.cell(p) == decided.cell(p));
            }
        }
        self.mend_exit(maze, entrance, exit);
        let ghost mended = maze@;
        seal_maze(maze, Ghost(entrance), Ghost(exit));
        proof {
            assert forall|p: Point| maze@.in_bounds(p) implies #[trigger] maze@.cell(p)
                == mended.cell(p) by {
                maze@.lemma_index_in_range(p);
            }
        }
    }
}

impl MazeGenerationAlgorithm for WFC {
    /// Thick mazes only.
    open spec fn supports(maze_type: MazeType) -> bool {
        maze_type == MazeType::Thick
    }

    /// Starts from a maze of walls with the entrance and up to two paths
    /// beside it, keeps the outer ring as it is, and decides the other
    /// cells one at a time. The exit is the cell of the outer ring that
    /// scores highest among those with a path around them, or one of four
    /// fixed cells of the ring, drawn at random, where there is none; where
    /// it has fewer than two paths around it, the cells around it are
    /// opened. Where the exit cannot be reached, a corridor to it is
    /// opened.
    fn generate(
        &mut self,
        maze_type: MazeType,
        width: usize,
        height: usize,
        entrance: Point,
        rng: &mut StdRng,
        sink: &mut SnapshotSink,
    ) -> (made: Option<Maze>)
        ensures
            made is Some ==> mend_inv((made->0)@, entrance, (made->0)@.exit()->0),
    {
        assert(sink@.subrange(0, sink@.len() as int) =~= sink@);
        match maze_type {
            MazeType::Slim => {
                return None;
            },
            MazeType::Thick => {},
        }
        if !is_valid_request(width, height, entrance) {
            return None;
        }
        let ghost frames0 = sink@;
        let (mut maze, mut collapsed, mut undecided) = Self::prepare(width, height, entrance);
        sink.record(&maze, Ghost(frames0));
        self.seed_start(&mut maze, &mut collapsed, &mut undecided, entrance);
        self.collapse_all(
            &mut maze,
            &mut collapsed,
            &mut undecided,
            rng,
            sink,
            Ghost(entrance),
            Ghost(frames0),
        );
        Self::fill_undecided(&mut maze, &mut collapsed, &mut undecided, Ghost(entrance));
        let exit = self.choose_exit(&mut maze, &mut collapsed, &mut undecided, entrance, rng);
        self.finish(&mut maze, entrance, exit, Ghost(collapsed), Ghost(undecided));
        sink.record(&maze, Ghost(frames0));
        Some(maze)
    }
}

/// Of no cells, none lies inside the outer ring.
proof fn lemma_filter_none(m: MazeView)
    ensures
        Seq::<Point>::empty().filter(inside_ring(m)) == Seq::<Point>::empty(),
{
    reveal(Seq::filter);
}

/// What one more cell adds to those of the first `k` cells of `s`.
proof fn lemma_seen_next(s: Seq<Point>, k: int)
    requires
        0 <= k < s.len(),
    ensures
        s.subrange(0, k + 1) == s.subrange(0, k).push(s[k]),
        forall|q: Point|
            s.subrange(0, k + 1).contains(q) <==> s.subrange(0, k).contains(q) || q == s[k],
{
    let shorter = s.subrange(0, k);
    let longer = s.subrange(0, k + 1);
    assert(longer =~= shorter.push(s[k]));
    assert forall|q: Point| longer.contains(q) <==> shorter.contains(q) || q == s[k] by {
        if longer.contains(q) {
            let i = choose|i: int| 0 <= i < longer.len() && longer[i] == q;
            if i < k {
                assert(shorter[i] == q);
            }
        }
        if shorter.contains(q) {
            let i = choose|i: int| 0 <= i < shorter.len() && shorter[i] == q;
            assert(longer[i] == q);
        }
        if q == s[k] {
            assert(longer[k] == q);
        }
    }
}

/// What one more cell adds to those of the first `k` cells of `s` that lie
/// inside the outer ring.
proof fn lemma_filter_next(s: Seq<Point>, k: int, m: MazeView)
    requires
        0 <= k < s.len(),
    ensures
        s.subrange(0, k + 1).filter(inside_ring(m)) == if on_border(m, s[k]) {
            s.subrange(0, k).filter(inside_ring(m))
        } else {
            s.subrange(0, k).filter(inside_ring(m)).push(s[k])
        },
{
    reveal(Seq::filter);
    assert(s.subrange(0, k + 1).drop_last() =~= s.subrange(0, k));
}

/// What one more entry adds to the first two.
proof fn lemma_first_two_push(s: Seq<Point>, p: Point)
    ensures
        first_two(s.push(p)) == if s.len() < 2 {
            first_two(s).push(p)
        } else {
            first_two(s)
        },
        first_two(s).len() < 2 <==> s.len() < 2,
        forall|q: Point|
            s.len() < 2 ==> (first_two(s.push(p)).contains(q) <==> first_two(s).contains(q) || q
                == p),
{
    let longer = s.push(p);
    if s.len() < 2 {
        assert(first_two(longer) =~= first_two(s).push(p));
        assert forall|q: Point| first_two(longer).contains(q) <==> first_two(s).contains(q) || q
            == p by {
            if first_two(longer).contains(q) {
                let i = choose|i: int| 0 <= i < longer.len() && longer[i] == q;
                if i < s.len() {
                    assert(s[i] == q);
                }
            }
            if s.contains(q) {
                let i = choose|i: int| 0 <= i < s.len() && s[i] == q;
                assert(longer[i] == q);
            }
            if q == p {
                assert(longer[s.len() as int] == q);
            }
        }
    } else {
        assert(first_two(longer) =~= first_two(s));
    }
}

/// Where every cell is decided, none is counted as undecided.
proof fn lemma_all_decided(m: MazeView, collapsed: &Grid<bool>)
    requires
        m.wf(),
        collapsed.wf(),
        collapsed.width == m.width,
        collapsed.height == m.height,
        forall|p: Point| m.in_bounds(p) ==> #[trigger] collapsed.at(p),
    ensures
        count_false(collapsed.cells@) == 0,
{
    let cells = collapsed.cells@;
    assert forall|i: int| 0 <= i < cells.len() implies #[trigger] cells[i] by {
        m.lemma_point_at(i);
        assert(collapsed.at(m.point_at(i)));
    }
    lemma_count_false_none(collapsed.cells@);
}

/// Where no cell is counted as undecided, every cell is decided.
proof fn lemma_none_undecided(m: MazeView, collapsed: &Grid<bool>)
    requires
        m.wf(),
        collapsed.wf(),
        collapsed.width == m.width,
        collapsed.height == m.height,
        count_false(collapsed.cells@) == 0,
    ensures
        forall|p: Point| m.in_bounds(p) ==> #[trigger] collapsed.at(p),
{
    lemma_count_false_none(collapsed.cells@);
    assert forall|p: Point| m.in_bounds(p) implies #[trigger] collapsed.at(p) by {
        collapsed.lemma_index(p);
    }
}

/// In a sequence of `false` entries all are counted.
proof fn lemma_all_false(s: Seq<bool>)
    requires
        forall|i: int| 0 <= i < s.len() ==> !#[trigger] s[i],
    ensures
        count_false(s) == s.len(),
    decreases s.len(),
{
    if s.len() > 0 {
        lemma_all_false(s.drop_last());
    }
}

/// A cell of the outer ring with a path around it lies on an edge of the
/// ring, not in a corner, while the cells of the ring are walls.
proof fn lemma_ring_candidate(
    m: MazeView,
    entrance: Point,
    collapsed: &Grid<bool>,
    undecided: usize,
    p: Point,
)
    requires
        collapse_inv(m, entrance, collapsed, undecided),
        m.in_bounds(p),
        on_border(m, p),
        path_neighbor_count(m, p) > 0,
    ensures
        m.on_boundary_edge(p),
        p != entrance,
{
    let q = if path_at(m, p, 0, 1) {
        neighbor_at(m, p, 0, 1)->0
    } else if path_at(m, p, 1, 0) {
        neighbor_at(m, p, 1, 0)->0
    } else if path_at(m, p, 0, -1) {
        neighbor_at(m, p, 0, -1)->0
    } else {
        neighbor_at(m, p, -1, 0)->0
    };
    assert(m.in_bounds(q));
    assert(m.cell(q).cell_type == CellType::Path);
    assert(!on_border(m, q));
}

} // verus!
