use rand::rngs::StdRng;
use vstd::prelude::*;
use super::pathfinding::{frames_grow, PathfindingStats, SnapshotSink};
use super::point::Point;
use crate::maze::{first_tagged, Maze, MazeType, MazeView};
use crate::maze_cell::{CellType, MazeCell};

verus! {

/// What a generator can work with: a maze of at least three by three cells
/// whose coordinates fit the signed coordinates of the maze's interface,
/// and an entrance inside the outer ring.
pub open spec fn valid_request(width: usize, height: usize, entrance: Point) -> bool {
    &&& 3 <= width <= i32::MAX
    &&& 3 <= height <= i32::MAX
    &&& width * height <= usize::MAX
    &&& 1 <= entrance.x
    &&& entrance.x + 1 < width
    &&& 1 <= entrance.y
    &&& entrance.y + 1 < height
}

/// Whether `p` is the one cell of the snapshot that carries `tag`.
pub open spec fn sole_tagged(m: MazeView, tag: CellType, p: Point) -> bool {
    &&& m.in_bounds(p)
    &&& forall|q: Point|
        m.in_bounds(q) ==> ((#[trigger] m.original_cell(q)).cell_type == tag <==> q == p)
}

/// What every generated maze is. It has the shape that was asked for and
/// its snapshot is its current state, with no tag of a search. Exactly one
/// cell is tagged `Entrance`, the one that was asked for, and exactly one
/// cell `Exit`. A chain of moves leads from the entrance to the exit.
pub open spec fn well_generated(
    m: MazeView,
    maze_type: MazeType,
    width: usize,
    height: usize,
    entrance: Point,
) -> bool {
    &&& m.wf()
    &&& m.maze_type == maze_type
    &&& m.width == width
    &&& m.height == height
    &&& m.cells == m.original
    &&& m.unmarked()
    &&& sole_tagged(m, CellType::Entrance, entrance)
    &&& m.entrance() == Some(entrance)
    &&& m.exit() is Some
    &&& sole_tagged(m, CellType::Exit, m.exit()->0)
    &&& m.reachable(entrance, m.exit()->0)
}

/// The one cell that carries a tag is the cell that a scan for the tag
/// finds.
pub proof fn lemma_sole_tagged_found(m: MazeView, tag: CellType, p: Point)
    requires
        m.wf(),
        m.width <= usize::MAX,
        m.height <= usize::MAX,
        sole_tagged(m, tag, p),
    ensures
        m.find_tagged(tag) == Some(p),
{
    m.lemma_index_in_range(p);
    let i = m.index(p);
    assert(m.original_cell(p).cell_type == tag);
    assert forall|j: int| 0 <= j < i implies (#[trigger] m.original[j]).cell_type != tag by {
        m.lemma_point_at(j);
        let q = m.point_at(j);
        assert(m.index(q) == j);
        assert(m.original_cell(q) == m.original[j]);
        assert(q != p);
    }
    assert(first_tagged(m.original, tag, i));
    let chosen = choose|k: int| first_tagged(m.original, tag, k);
    assert(chosen == i) by {
        if chosen < i {
            assert(m.original[chosen].cell_type != tag);
        }
        if i < chosen {
            assert(m.original[i].cell_type != tag);
        }
    }
}

/// In every thick maze all of whose open cells can be reached from `from`,
/// this stays so when a neighbour of an open cell is given a tag other than
/// `Wall`.
pub proof fn lemma_carve_keeps_connected(
    m: MazeView,
    from: Point,
    open: Point,
    carved: Point,
    tag: CellType,
)
    requires
        m.wf(),
        m.maze_type == MazeType::Thick,
        m.connected_from(from),
        m.in_bounds(open),
        m.in_bounds(carved),
        m.cell(open).is_open(),
        open.adjacent(carved),
        tag != CellType::Wall,
    ensures
        m.marked(carved, tag).connected_from(from),
{
    let after = m.marked(carved, tag);
    m.lemma_marked(carved, tag);
    assert forall|p: Point| after.in_bounds(p) && #[trigger] after.cell(p).is_open()
        implies after.reachable(
        from,
        p,
    ) by {
        let target = if p == carved {
            open
        } else {
            p
        };
        assert(m.cell(target).is_open());
        let walk = choose|walk: Seq<Point>| m.walk_between(walk, from, target);
        assert(after.is_walk(walk)) by {
            assert forall|i: int| 0 <= i < walk.len() - 1 implies after.step(
                #[trigger] walk[i],
                walk[i + 1],
            ) by {
                assert(m.step(walk[i], walk[i + 1]));
            }
        }
        if p == carved {
            after.lemma_walk_push(walk, carved);
            assert(after.walk_between(walk.push(carved), from, carved));
        } else {
            assert(after.walk_between(walk, from, p));
        }
    }
}

/// Mazes with the same topology are connected alike.
pub proof fn lemma_same_topology_connected(m: MazeView, other: MazeView, from: Point)
    requires
        m.wf(),
        m.maze_type == MazeType::Thick,
        m.same_topology(other),
        m.connected_from(from),
    ensures
        other.connected_from(from),
{
    assert forall|p: Point| other.in_bounds(p) && #[trigger] other.cell(p).is_open()
        implies other.reachable(
        from,
        p,
    ) by {
        m.lemma_index_in_range(p);
        assert(m.cell(p).is_open());
        let walk = choose|walk: Seq<Point>| m.walk_between(walk, from, p);
        m.lemma_same_topology_walk(other, walk);
        assert(other.walk_between(walk, from, p));
    }
}

/// In a thick maze all of whose open cells can be reached from `from`, a
/// cell with an open neighbour can be reached once it is tagged as the
/// exit.
pub proof fn lemma_exit_reachable(m: MazeView, from: Point, exit: Point)
    requires
        m.wf(),
        m.maze_type == MazeType::Thick,
        m.connected_from(from),
        m.exit_candidate(exit),
    ensures
        m.marked(exit, CellType::Exit).reachable(from, exit),
{
    let q = choose|q: Point| m.in_bounds(q) && exit.adjacent(q) && #[trigger] m.passable(exit, q);
    m.lemma_index_in_range(q);
    m.lemma_index_in_range(exit);
    lemma_carve_keeps_connected(m, from, q, exit, CellType::Exit);
    m.lemma_marked(exit, CellType::Exit);
    assert(m.marked(exit, CellType::Exit).cell(exit).is_open());
}

/// Whether the arguments make a valid request.
pub fn is_valid_request(width: usize, height: usize, entrance: Point) -> (valid: bool)
    ensures
        valid == valid_request(width, height, entrance),
{
    if width < 3 || height < 3 || width > 0x7fff_ffff || height > 0x7fff_ffff {
        return false;
    }
    assert(width * height <= 0x7fff_ffff * 0x7fff_ffff) by (nonlinear_arith)
        requires
            width <= 0x7fff_ffff,
            height <= 0x7fff_ffff,
    ;
    let cells: u64 = (width as u64) * (height as u64);
    if cells > usize::MAX as u64 {
        return false;
    }
    entrance.x >= 1 && entrance.x < width - 1 && entrance.y >= 1 && entrance.y < height - 1
}

/// Giving a cell of a thick maze a tag other than `Wall` keeps every walk.
pub proof fn lemma_opening_keeps_walk(m: MazeView, p: Point, tag: CellType, walk: Seq<Point>)
    requires
        m.wf(),
        m.maze_type == MazeType::Thick,
        m.in_bounds(p),
        tag != CellType::Wall,
        m.is_walk(walk),
    ensures
        m.marked(p, tag).is_walk(walk),
{
    let after = m.marked(p, tag);
    m.lemma_marked(p, tag);
    assert forall|i: int| 0 <= i < walk.len() - 1 implies after.step(
        #[trigger] walk[i],
        walk[i + 1],
    ) by {
        assert(m.step(walk[i], walk[i + 1]));
    }
}

/// In a thick maze a walk that starts on an open cell can be walked back.
pub proof fn lemma_walk_back(m: MazeView, walk: Seq<Point>)
    requires
        m.maze_type == MazeType::Thick,
        m.is_walk(walk),
        m.cell(walk[0]).is_open(),
    ensures
        m.is_walk(walk.reverse()),
        walk.reverse()[0] == walk.last(),
        walk.reverse().last() == walk[0],
{
    let back = walk.reverse();
    m.lemma_walk_in_bounds(walk, walk.len() - 1);
    assert forall|i: int| 0 <= i < back.len() - 1
        implies m.step(#[trigger] back[i], back[i + 1]) by {
        let j = walk.len() - 2 - i;
        assert(m.step(walk[j], walk[j + 1]));
        assert(back[i] == walk[j + 1]);
        assert(back[i + 1] == walk[j]);
        if j > 0 {
            assert(m.step(walk[j - 1], walk[j - 1 + 1]));
        }
    }
}

/// Takes the state of a freshly made maze, with its entrance and exit
/// tagged, as the snapshot.
#[verifier::rlimit(40)]
pub(crate) fn seal_maze(maze: &mut Maze, Ghost(entrance): Ghost<Point>, Ghost(exit): Ghost<Point>)
    requires
        old(maze).wf(),
        valid_request(old(maze).width, old(maze).height, entrance),
        old(maze)@.in_bounds(exit),
        exit != entrance,
        old(maze)@.reachable(entrance, exit),
        old(maze)@.cell(entrance).cell_type == CellType::Entrance,
        old(maze)@.cell(exit).cell_type == CellType::Exit,
        forall|p: Point|
            old(maze)@.in_bounds(p) && p != entrance && p != exit ==> (#[trigger] old(maze)@.cell(
                p,
            )).cell_type == CellType::Wall || old(maze)@.cell(p).cell_type == CellType::Path,
    ensures
        final(maze).wf(),
        final(maze).width == old(maze).width,
        final(maze).height == old(maze).height,
        final(maze).maze_type == old(maze).maze_type,
        final(maze)@.cells == old(maze)@.cells,
        well_generated(
            final(maze)@,
            old(maze).maze_type,
            old(maze).width,
            old(maze).height,
            entrance,
        ),
        final(maze)@.exit() == Some(exit),
{
    let ghost m2 = maze@;
    maze.backup();
    proof {
        let m3 = maze@;
        m2.lemma_index_in_range(exit);
        m2.lemma_index_in_range(entrance);
        let walk = choose|walk: Seq<Point>| m2.walk_between(walk, entrance, exit);
        assert(m3.is_walk(walk)) by {
            assert forall|i: int| 0 <= i < walk.len() - 1 implies m3.step(
                #[trigger] walk[i],
                walk[i + 1],
            ) by {
                assert(m2.step(walk[i], walk[i + 1]));
            }
        }
        assert(m3.walk_between(walk, entrance, exit));
        assert(sole_tagged(m3, CellType::Entrance, entrance)) by {
            assert forall|p: Point| m3.in_bounds(p) implies ((#[trigger] m3.original_cell(
                p,
            )).cell_type == CellType::Entrance <==> p == entrance) by {
                assert(m3.original_cell(p) == m2.cell(p));
            }
        }
        assert(sole_tagged(m3, CellType::Exit, exit)) by {
            assert forall|p: Point| m3.in_bounds(p) implies ((#[trigger] m3.original_cell(
                p,
            )).cell_type == CellType::Exit <==> p == exit) by {
                assert(m3.original_cell(p) == m2.cell(p));
            }
        }
        lemma_sole_tagged_found(m3, CellType::Entrance, entrance);
        lemma_sole_tagged_found(m3, CellType::Exit, exit);
        assert(m3.unmarked()) by {
            assert forall|p: Point| m3.in_bounds(p) implies !(#[trigger] m3.cell(
                p,
            )).is_search_mark() by {
                assert(m3.cell(p) == m2.cell(p));
            }
        }
    }
}

/// Mazes of one shape with the same cells are connected alike, whatever
/// their snapshots hold.
pub proof fn lemma_same_cells_connected(m: MazeView, other: MazeView, from: Point)
    requires
        m.maze_type == other.maze_type,
        m.width == other.width,
        m.height == other.height,
        m.cells == other.cells,
        m.connected_from(from),
    ensures
        other.connected_from(from),
{
    assert forall|p: Point| other.in_bounds(p) && #[trigger] other.cell(p).is_open()
        implies other.reachable(
        from,
        p,
    ) by {
        assert(m.cell(p).is_open());
        let walk = choose|walk: Seq<Point>| m.walk_between(walk, from, p);
        assert(other.is_walk(walk)) by {
            assert forall|i: int| 0 <= i < walk.len() - 1 implies other.step(
                #[trigger] walk[i],
                walk[i + 1],
            ) by {
                assert(m.step(walk[i], walk[i + 1]));
            }
        }
        assert(other.walk_between(walk, from, p));
    }
}

/// Puts the exit of a freshly carved thick maze on a random cell on an
/// edge of the outer ring that has an open neighbour, and takes the result
/// as the snapshot.
#[verifier::rlimit(40)]
pub fn place_exit(maze: &mut Maze, entrance: Point, rng: &mut StdRng) -> (exit: Point)
    requires
        old(maze).wf(),
        old(maze).maze_type == MazeType::Thick,
        valid_request(old(maze).width, old(maze).height, entrance),
        old(maze)@.connected_from(entrance),
        old(maze)@.cell(entrance) == (MazeCell { cell_type: CellType::Entrance, walls: 0 }),
        forall|p: Point|
            old(maze)@.in_bounds(p) && p != entrance ==> (#[trigger] old(maze)@.cell(p))
                == MazeCell::new_spec(CellType::Wall) || old(maze)@.cell(p) == MazeCell::new_spec(
                CellType::Path,
            ),
        exists|p: Point| old(maze)@.exit_candidate(p),
    ensures
        final(maze).wf(),
        final(maze).width == old(maze).width,
        final(maze).height == old(maze).height,
        final(maze).maze_type == old(maze).maze_type,
        well_generated(
            final(maze)@,
            old(maze).maze_type,
            old(maze).width,
            old(maze).height,
            entrance,
        ),
        final(maze)@.exit() == Some(exit),
        old(maze)@.exit_candidate(exit),
        final(maze)@.connected_from(entrance),
        final(maze)@.cell(exit) == (MazeCell { cell_type: CellType::Exit, walls: 0 }),
        forall|p: Point|
            old(maze)@.in_bounds(p) && p != exit ==> #[trigger] final(maze)@.cell(p) == old(
                maze,
            )@.cell(p),
{
    let ghost tagged = maze@;
    let exit = maze.get_random_boundary_point(rng).unwrap();
    proof {
        lemma_exit_reachable(tagged, entrance, exit);
        tagged.lemma_marked(exit, CellType::Exit);
        tagged.lemma_index_in_range(exit);
        let q = choose|q: Point|
            tagged.in_bounds(q) && exit.adjacent(q) && #[trigger] tagged.passable(exit, q);
        tagged.lemma_index_in_range(q);
        lemma_carve_keeps_connected(tagged, entrance, q, exit, CellType::Exit);
    }
    maze.mark_cell_as_exit(exit);
    let ghost marked = maze@;
    proof {
        assert forall|p: Point|
            marked.in_bounds(p) && p != entrance && p != exit implies (#[trigger] marked.cell(
            p,
        )).cell_type == CellType::Wall || marked.cell(p).cell_type == CellType::Path by {
            assert(marked.cell(p) == tagged.cell(p));
        }
    }
    seal_maze(maze, Ghost(entrance), Ghost(exit));
    proof {
        lemma_same_cells_connected(marked, maze@, entrance);
        assert forall|p: Point| tagged.in_bounds(p) && p != exit implies #[trigger] maze@.cell(p)
            == tagged.cell(p) by {
            maze@.lemma_index_in_range(p);
            assert(maze@.cell(p) == marked.cell(p));
        }
        maze@.lemma_index_in_range(exit);
        assert(maze@.cell(exit) == marked.cell(exit));
    }
    exit
}

/// A maze generator.
pub trait MazeGenerationAlgorithm {
    /// Which kinds of maze the generator can make.
    spec fn supports(maze_type: MazeType) -> bool;

    /// Makes a maze of the given kind and shape with its entrance at
    /// `entrance`, draws its random choices from `rng` and sends a snapshot
    /// of each step to `sink`. There is no maze where the generator does not
    /// support the kind, where the shape is smaller than three by three or
    /// too large, or where the entrance does not lie inside the outer ring.
    fn generate(
        &mut self,
        maze_type: MazeType,
        width: usize,
        height: usize,
        entrance: Point,
        rng: &mut StdRng,
        sink: &mut SnapshotSink,
    ) -> (made: Option<Maze>)
        ensures
            made is Some <==> Self::supports(maze_type) && valid_request(width, height, entrance),
            made is Some ==> {
                &&& (made->0).wf()
                &&& (made->0).maze_type == maze_type
                &&& (made->0).width == width
                &&& (made->0).height == height
                &&& well_generated((made->0)@, maze_type, width, height, entrance)
            },
            final(sink).follows(old(sink)),
            frames_grow(old(sink)@, final(sink)@),
            made is Some ==> final(sink)@.len() > old(sink)@.len() && final(sink)@.last() == (
                None::<PathfindingStats>,
                (made->0)@,
            ),
            made is None ==> final(sink)@ == old(sink)@,
    ;
}

} // verus!
