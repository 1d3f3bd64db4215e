use rand::rngs::StdRng;
use vstd::prelude::*;
use crate::algorithms::directions::{is_cardinal, lists_unit_offsets, Movements};
use crate::algorithms::point::Point;
use crate::maze_cell::{has_wall, wall_mask, CellType, MazeCell, SlimWallsCellType};
use crate::random::random_in_range;

verus! {

/// How a maze represents its walls.
#[derive(Clone, Copy, PartialEq, Eq, Debug, Structural)]
pub enum MazeType {
    /// A wall fills a whole cell.
    Thick,
    /// Every cell can be stepped on and walls lie on the edges between cells.
    Slim,
}

impl Default for MazeType {
    fn default() -> (t: Self)
        ensures
            t == MazeType::Thick,
    {
        MazeType::Thick
    }
}

/// The mathematical content of a [`Maze`]: its shape, the current cells and
/// the snapshot taken by the last backup, both in row-major order.
pub struct MazeView {
    pub maze_type: MazeType,
    pub width: nat,
    pub height: nat,
    pub cells: Seq<MazeCell>,
    pub original: Seq<MazeCell>,
}

/// Whether `i` is the first position of `cells` that carries `tag`.
pub open spec fn first_tagged(cells: Seq<MazeCell>, tag: CellType, i: int) -> bool {
    &&& 0 <= i < cells.len()
    &&& cells[i].cell_type == tag
    &&& forall|j: int| 0 <= j < i ==> (#[trigger] cells[j]).cell_type != tag
}

/// How many cells of `cells` carry `tag`.
pub open spec fn count_tagged(cells: Seq<MazeCell>, tag: CellType) -> nat
    decreases cells.len(),
{
    if cells.len() == 0 {
        0
    } else {
        count_tagged(cells.drop_last(), tag) + if cells.last().cell_type == tag {
            1nat
        } else {
            0nat
        }
    }
}

impl MazeView {
    /// Both cell sequences hold one cell for each coordinate.
    pub open spec fn wf(self) -> bool {
        &&& self.cells.len() == self.width * self.height
        &&& self.original.len() == self.width * self.height
    }

    /// Whether `p` names a cell of the maze.
    pub open spec fn in_bounds(self, p: Point) -> bool {
        p.x < self.width && p.y < self.height
    }

    /// The row-major position of `p`.
    pub open spec fn index(self, p: Point) -> int {
        p.y * self.width + p.x
    }

    /// The point at the row-major position `i`.
    pub open spec fn point_at(self, i: int) -> Point {
        Point { x: (i % self.width as int) as usize, y: (i / self.width as int) as usize }
    }

    /// The current cell at `p`.
    pub open spec fn cell(self, p: Point) -> MazeCell {
        self.cells[self.index(p)]
    }

    /// The cell at `p` in the snapshot.
    pub open spec fn original_cell(self, p: Point) -> MazeCell {
        self.original[self.index(p)]
    }

    /// Whether one may move from `current` onto `next`. With thick walls
    /// `next` must not be a wall. With slim walls neither cell may have a
    /// wall on the edge that they share.
    pub open spec fn passable(self, current: Point, next: Point) -> bool {
        match self.maze_type {
            MazeType::Thick => self.cell(next).is_open(),
            MazeType::Slim => {
                &&& !has_wall(
                    self.cell(current).walls,
                    wall_mask(next.x - current.x, next.y - current.y),
                )
                &&& !has_wall(
                    self.cell(next).walls,
                    wall_mask(current.x - next.x, current.y - next.y),
                )
            },
        }
    }

    /// Whether `p` lies on the outer ring of the maze and is no corner.
    pub open spec fn on_boundary_edge(self, p: Point) -> bool {
        &&& self.in_bounds(p)
        &&& {
            ||| 1 <= p.x && p.x + 1 < self.width && (p.y == 0 || p.y + 1 == self.height)
            ||| 1 <= p.y && p.y + 1 < self.height && (p.x == 0 || p.x + 1 == self.width)
        }
    }

    /// Whether some neighbour of `p` can be entered from `p`.
    pub open spec fn has_open_neighbor(self, p: Point) -> bool {
        exists|q: Point| self.in_bounds(q) && p.adjacent(q) && #[trigger] self.passable(p, q)
    }

    /// Whether an exit can be put at `p`: it lies on an edge of the outer
    /// ring and has a neighbour that can be entered.
    pub open spec fn exit_candidate(self, p: Point) -> bool {
        self.on_boundary_edge(p) && self.has_open_neighbor(p)
    }

    /// The first cell of the snapshot that carries `tag`, in row-major order.
    pub open spec fn find_tagged(self, tag: CellType) -> Option<Point> {
        if exists|i: int| first_tagged(self.original, tag, i) {
            Some(self.point_at(choose|i: int| first_tagged(self.original, tag, i)))
        } else {
            None
        }
    }

    /// The entrance: the first cell of the snapshot tagged `Entrance`.
    pub open spec fn entrance(self) -> Option<Point> {
        self.find_tagged(CellType::Entrance)
    }

    /// The exit: the first cell of the snapshot tagged `Exit`.
    pub open spec fn exit(self) -> Option<Point> {
        self.find_tagged(CellType::Exit)
    }

    /// No current cell carries a tag that a search leaves behind.
    pub open spec fn unmarked(self) -> bool {
        forall|p: Point| self.in_bounds(p) ==> !(#[trigger] self.cell(p)).is_search_mark()
    }

    /// The maze with the tag of `p` replaced and its walls kept.
    pub open spec fn marked(self, p: Point, tag: CellType) -> MazeView {
        MazeView {
            cells: self.cells.update(
                self.index(p),
                MazeCell { cell_type: tag, walls: self.cell(p).walls },
            ),
            ..self
        }
    }

    /// The maze with its current cells replaced by the snapshot.
    pub open spec fn restored(self) -> MazeView {
        MazeView { cells: self.original, ..self }
    }

    /// The two mazes have the same shape, the same snapshot, and cells that
    /// agree on everything that decides where one can move: the wall masks
    /// and, with thick walls, whether a cell is a wall.
    pub open spec fn same_topology(self, other: MazeView) -> bool {
        &&& self.maze_type == other.maze_type
        &&& self.width == other.width
        &&& self.height == other.height
        &&& self.original == other.original
        &&& self.cells.len() == other.cells.len()
        &&& forall|i: int|
            0 <= i < self.cells.len() ==> {
                &&& (#[trigger] self.cells[i]).walls == other.cells[i].walls
                &&& self.maze_type == MazeType::Thick ==> self.cells[i].is_open()
                    == other.cells[i].is_open()
            }
    }

    /// Whether the tag of `p` can be replaced by the tag of a search
    /// without a change of topology: with thick walls `p` must not be a
    /// wall.
    pub open spec fn markable(self, p: Point) -> bool {
        self.maze_type == MazeType::Slim || self.cell(p).is_open()
    }

    /// The row-major position of a cell of the maze lies in both cell
    /// sequences, and leads back to the cell.
    pub proof fn lemma_index_in_range(self, p: Point)
        requires
            self.wf(),
            self.in_bounds(p),
        ensures
            0 <= self.index(p) < self.cells.len(),
            0 <= self.index(p) < self.original.len(),
            self.point_at(self.index(p)) == p,
    {
        let w = self.width as int;
        let h = self.height as int;
        let x = p.x as int;
        let y = p.y as int;
        assert(0 <= y * w + x < w * h) by (nonlinear_arith)
            requires
                0 <= x < w,
                0 <= y < h,
        ;
        assert((y * w + x) % w == x && (y * w + x) / w == y) by (nonlinear_arith)
            requires
                0 <= x < w,
                0 <= y,
        ;
    }

    /// The point at a row-major position is a cell of the maze at that
    /// position.
    pub proof fn lemma_point_at(self, i: int)
        requires
            self.wf(),
            0 <= i < self.cells.len(),
            self.width <= usize::MAX,
            self.height <= usize::MAX,
        ensures
            self.in_bounds(self.point_at(i)),
            self.index(self.point_at(i)) == i,
    {
        let w = self.width as int;
        let h = self.height as int;
        assert(w > 0 && 0 <= i % w < w && 0 <= i / w < h && (i / w) * w + i % w == i)
            by (nonlinear_arith)
            requires
                0 <= i < w * h,
                0 <= w,
                0 <= h,
        ;
    }

    /// Different cells have different row-major positions.
    pub proof fn lemma_index_injective(self, p: Point, q: Point)
        requires
            self.in_bounds(p),
            self.in_bounds(q),
            self.index(p) == self.index(q),
        ensures
            p == q,
    {
        let w = self.width as int;
        let (px, py, qx, qy) = (p.x as int, p.y as int, q.x as int, q.y as int);
        assert(py == qy && px == qx) by (nonlinear_arith)
            requires
                0 <= px < w,
                0 <= qx < w,
                0 <= py,
                0 <= qy,
                py * w + px == qy * w + qx,
        ;
    }

    /// Replacing the tag of one cell changes that cell and no other, and
    /// keeps the topology where neither the old nor the new tag is `Wall`.
    pub proof fn lemma_marked(self, p: Point, tag: CellType)
        requires
            self.wf(),
            self.in_bounds(p),
        ensures
            self.marked(p, tag).wf(),
            self.marked(p, tag).cell(p) == (MazeCell { cell_type: tag, walls: self.cell(p).walls }),
            forall|q: Point|
                self.in_bounds(q) && q != p ==> #[trigger] self.marked(p, tag).cell(q) == self.cell(
                    q,
                ),
            self.markable(p) && tag != CellType::Wall ==> self.marked(p, tag).same_topology(self),
    {
        self.lemma_index_in_range(p);
        assert forall|q: Point| self.in_bounds(q) && q != p implies #[trigger] self.marked(
            p,
            tag,
        ).cell(q) == self.cell(q) by {
            self.lemma_index_in_range(q);
            if self.index(p) == self.index(q) {
                self.lemma_index_injective(p, q);
            }
        }
    }

    /// Having the same topology is symmetric.
    pub proof fn lemma_same_topology_symmetric(self, other: MazeView)
        requires
            self.same_topology(other),
        ensures
            other.same_topology(self),
    {
        assert forall|i: int| 0 <= i < other.cells.len() implies {
            &&& (#[trigger] other.cells[i]).walls == self.cells[i].walls
            &&& other.maze_type == MazeType::Thick ==> other.cells[i].is_open()
                == self.cells[i].is_open()
        } by {
            assert(self.cells[i].walls == other.cells[i].walls);
        }
    }

    /// Having the same topology is transitive.
    pub proof fn lemma_same_topology_transitive(self, middle: MazeView, last: MazeView)
        requires
            self.same_topology(middle),
            middle.same_topology(last),
        ensures
            self.same_topology(last),
    {
        assert forall|i: int| 0 <= i < self.cells.len() implies {
            &&& (#[trigger] self.cells[i]).walls == last.cells[i].walls
            &&& self.maze_type == MazeType::Thick ==> self.cells[i].is_open()
                == last.cells[i].is_open()
        } by {
            assert(middle.cells[i].walls == last.cells[i].walls);
        }
    }

    /// Mazes with the same topology allow the same moves.
    pub proof fn lemma_same_topology_passable(self, other: MazeView, a: Point, b: Point)
        requires
            self.wf(),
            self.same_topology(other),
            self.in_bounds(a),
            self.in_bounds(b),
        ensures
            self.passable(a, b) == other.passable(a, b),
    {
        self.lemma_index_in_range(a);
        self.lemma_index_in_range(b);
    }
}

/// A rectangular grid of cells with a snapshot of its state after
/// generation, from which it can be reset before each search.
pub struct Maze {
    pub maze_type: MazeType,
    pub width: usize,
    pub height: usize,
    /// The current cells in row-major order.
    pub cells: Vec<MazeCell>,
    /// The cells as they were at the last backup.
    pub original_cells: Vec<MazeCell>,
}

impl View for Maze {
    type V = MazeView;

    open spec fn view(&self) -> MazeView {
        MazeView {
            maze_type: self.maze_type,
            width: self.width as nat,
            height: self.height as nat,
            cells: self.cells@,
            original: self.original_cells@,
        }
    }
}

impl Clone for Maze {
    fn clone(&self) -> (copy: Self)
        ensures
            copy@ == self@,
            copy.maze_type == self.maze_type,
            copy.width == self.width,
            copy.height == self.height,
    {
        let cells = self.cells.clone();
        let original_cells = self.original_cells.clone();
        assert(cells@ =~= self.cells@);
        assert(original_cells@ =~= self.original_cells@);
        Maze {
            maze_type: self.maze_type,
            width: self.width,
            height: self.height,
            cells,
            original_cells,
        }
    }
}

impl Default for Maze {
    /// The empty maze.
    fn default() -> (maze: Self)
        ensures
            maze.wf(),
            maze@ == (MazeView {
                maze_type: MazeType::Thick,
                width: 0,
                height: 0,
                cells: Seq::<MazeCell>::empty(),
                original: Seq::<MazeCell>::empty(),
            }),
    {
        let maze = Maze {
            maze_type: MazeType::Thick,
            width: 0,
            height: 0,
            cells: Vec::new(),
            original_cells: Vec::new(),
        };
        assert(maze@.width * maze@.height == 0) by (nonlinear_arith)
            requires
                maze@.width == 0,
        ;
        maze
    }
}

impl Maze {
    /// The cell sequences fit the shape, and every coordinate fits the
    /// signed coordinates that [`Maze::is_valid_coord`] takes.
    pub open spec fn wf(&self) -> bool {
        &&& self@.wf()
        &&& self.width <= i32::MAX
        &&& self.height <= i32::MAX
    }

    /// A maze of `width * height` cells that all carry `default_cell_type`,
    /// or `Path` where none is given, and have no walls on their edges. The
    /// snapshot holds the same cells.
    pub fn new(
        width: usize,
        height: usize,
        maze_type: MazeType,
        default_cell_type: Option<CellType>,
    ) -> (maze: Self)
        requires
            width <= i32::MAX,
            height <= i32::MAX,
            width * height <= usize::MAX,
        ensures
            maze.wf(),
            maze.width == width,
            maze.height == height,
            maze.maze_type == maze_type,
            maze@.original == maze@.cells,
            forall|i: int|
                0 <= i < width * height ==> #[trigger] maze@.cells[i] == MazeCell::new_spec(
                    match default_cell_type {
                        Some(t) => t,
                        None => CellType::Path,
                    },
                ),
    {
        let tag = match default_cell_type {
            Some(t) => t,
            None => CellType::Path,
        };
        let count = width * height;
        let mut cells: Vec<MazeCell> = Vec::new();
        let mut i: usize = 0;
        while i < count
            invariant
                i <= count,
                cells.len() == i,
                forall|j: int| 0 <= j < i ==> #[trigger] cells[j] == MazeCell::new_spec(tag),
            decreases count - i,
        {
            cells.push(MazeCell::new(tag));
            i += 1;
        }
        let original_cells = cells.clone();
        assert(original_cells@ =~= cells@);
        Maze { maze_type, width, height, cells, original_cells }
    }

    /// A fresh maze whose current cells and snapshot are both this maze's
    /// snapshot.
    pub fn from_original(&self) -> (maze: Self)
        ensures
            maze@ == self@.restored(),
            maze.width == self.width,
            maze.height == self.height,
            maze.maze_type == self.maze_type,
    {
        let cells = self.original_cells.clone();
        let original_cells = self.original_cells.clone();
        assert(cells@ =~= self.original_cells@);
        assert(original_cells@ =~= self.original_cells@);
        Maze {
            maze_type: self.maze_type,
            width: self.width,
            height: self.height,
            cells,
            original_cells,
        }
    }

    /// Replaces the current cells by the snapshot.
    pub fn reset(&mut self)
        ensures
            final(self)@ == old(self)@.restored(),
            final(self).width == old(self).width,
            final(self).height == old(self).height,
            final(self).maze_type == old(self).maze_type,
    {
        let cells = self.original_cells.clone();
        assert(cells@ =~= self.original_cells@);
        self.cells = cells;
    }

    /// Takes the current cells as the new snapshot.
    pub fn backup(&mut self)
        ensures
            final(self)@ == (MazeView { original: old(self)@.cells, ..old(self)@ }),
            final(self).width == old(self).width,
            final(self).height == old(self).height,
            final(self).maze_type == old(self).maze_type,
    {
        let original_cells = self.cells.clone();
        assert(original_cells@ =~= self.cells@);
        self.original_cells = original_cells;
    }

    /// The first cell of the snapshot that carries `tag`.
    fn find_tagged(&self, tag: CellType) -> (found: Option<Point>)
        requires
            self.wf(),
        ensures
            found == self@.find_tagged(tag),
            found is Some ==> self@.in_bounds(found->0) && self@.original_cell(found->0).cell_type
                == tag,
            found is None ==> forall|i: int|
                0 <= i < self@.original.len() ==> (#[trigger] self@.original[i]).cell_type != tag,
    {
        let mut index: usize = 0;
        while index < self.original_cells.len()
            invariant
                self.wf(),
                index <= self.original_cells.len(),
                forall|j: int| 0 <= j < index
                    ==> (#[trigger] self.original_cells[j]).cell_type != tag,
            decreases self.original_cells.len() - index,
        {
            if self.original_cells[index].cell_type == tag {
                proof {
                    assert(first_tagged(self@.original, tag, index as int));
                    let chosen = choose|i: int| first_tagged(self@.original, tag, i);
                    assert(chosen == index) by {
                        if chosen < index {
                            assert(self@.original[chosen].cell_type != tag);
                        }
                        if index < chosen {
                            assert(self@.original[index as int].cell_type != tag);
                        }
                    }
                    self@.lemma_point_at(index as int);
                }
                return Some(Point { x: index % self.width, y: index / self.width });
            }
            index += 1;
        }
        assert(forall|i: int| !first_tagged(self@.original, tag, i));
        None
    }

    /// The entrance: the first cell of the snapshot tagged `Entrance`.
    pub fn get_entrance(&self) -> (found: Option<Point>)
        requires
            self.wf(),
        ensures
            found == self@.entrance(),
            found is Some ==> self@.in_bounds(found->0) && self@.original_cell(
                found->0,
            ).cell_type == CellType::Entrance,
            found is None ==> forall|i: int|
                0 <= i < self@.original.len() ==> (#[trigger] self@.original[i]).cell_type
                    != CellType::Entrance,
    {
        self.find_tagged(CellType::Entrance)
    }

    /// The exit: the first cell of the snapshot tagged `Exit`.
    pub fn get_exit(&self) -> (found: Option<Point>)
        requires
            self.wf(),
        ensures
            found == self@.exit(),
            found is Some ==> self@.in_bounds(found->0) && self@.original_cell(
                found->0,
            ).cell_type == CellType::Exit,
            found is None ==> forall|i: int|
                0 <= i < self@.original.len() ==> (#[trigger] self@.original[i]).cell_type
                    != CellType::Exit,
    {
        self.find_tagged(CellType::Exit)
    }

    /// The row-major position of the cell at `(x, y)`.
    pub fn get_index(&self, x: usize, y: usize) -> (index: usize)
        requires
            self.wf(),
            x < self.width,
            y < self.height,
        ensures
            index == self@.index(Point { x, y }),
            index < self@.cells.len(),
    {
        proof {
            self@.lemma_index_in_range(Point { x, y });
            assert(self.cells.len() == self.width * self.height);
            assert(0 <= y * self.width <= y * self.width + x < self.width * self.height)
                by (nonlinear_arith)
                requires
                    x < self.width,
                    y < self.height,
            ;
        }
        y * self.width + x
    }

    /// The current cell at `point`.
    pub fn get_cell(&self, point: Point) -> (cell: MazeCell)
        requires
            self.wf(),
            self@.in_bounds(point),
        ensures
            cell == self@.cell(point),
    {
        self.cells[self.get_index(point.x, point.y)]
    }

    /// Replaces the current cell at `(x, y)` by `value`.
    pub fn set_cell(&mut self, x: usize, y: usize, value: MazeCell)
        requires
            old(self).wf(),
            x < old(self).width,
            y < old(self).height,
        ensures
            final(self).wf(),
            final(self).width == old(self).width,
            final(self).height == old(self).height,
            final(self).maze_type == old(self).maze_type,
            final(self)@ == (MazeView {
                cells: old(self)@.cells.update(old(self)@.index(Point { x, y }), value),
                ..old(self)@
            }),
    {
        let index = self.get_index(x, y);
        self.cells[index] = value;
    }

    /// Replaces the tag of the cell at `point` and keeps its walls.
    pub(crate) fn mark_cell(&mut self, point: Point, cell_type: CellType)
        requires
            old(self).wf(),
            old(self)@.in_bounds(point),
        ensures
            final(self).wf(),
            final(self).width == old(self).width,
            final(self).height == old(self).height,
            final(self).maze_type == old(self).maze_type,
            final(self)@ == old(self)@.marked(point, cell_type),
    {
        let index = self.get_index(point.x, point.y);
        let mut cell = self.cells[index];
        cell.mark_cell_as(cell_type);
        self.cells[index] = cell;
    }

    /// Tags the cell at `point` `Visited` and keeps its walls.
    pub fn mark_cell_as_visited(&mut self, point: Point)
        requires
            old(self).wf(),
            old(self)@.in_bounds(point),
        ensures
            final(self).wf(),
            final(self).width == old(self).width,
            final(self).height == old(self).height,
            final(self).maze_type == old(self).maze_type,
            final(self)@ == old(self)@.marked(point, CellType::Visited),
    {
        self.mark_cell(point, CellType::Visited);
    }

    /// Tags the cell at `point` `Path` and keeps its walls.
    pub fn mark_cell_as_path(&mut self, point: Point)
        requires
            old(self).wf(),
            old(self)@.in_bounds(point),
        ensures
            final(self).wf(),
            final(self).width == old(self).width,
            final(self).height == old(self).height,
            final(self).maze_type == old(self).maze_type,
            final(self)@ == old(self)@.marked(point, CellType::Path),
    {
        self.mark_cell(point, CellType::Path);
    }

    /// Tags the cell at `point` `FinalPath` and keeps its walls.
    pub fn mark_cell_as_final_path(&mut self, point: Point)
        requires
            old(self).wf(),
            old(self)@.in_bounds(point),
        ensures
            final(self).wf(),
            final(self).width == old(self).width,
            final(self).height == old(self).height,
            final(self).maze_type == old(self).maze_type,
            final(self)@ == old(self)@.marked(point, CellType::FinalPath),
    {
        self.mark_cell(point, CellType::FinalPath);
    }

    /// Tags the cell at `point` `Entrance` and keeps its walls.
    pub fn mark_cell_as_entrance(&mut self, point: Point)
        requires
            old(self).wf(),
            old(self)@.in_bounds(point),
        ensures
            final(self).wf(),
            final(self).width == old(self).width,
            final(self).height == old(self).height,
            final(self).maze_type == old(self).maze_type,
            final(self)@ == old(self)@.marked(point, CellType::Entrance),
    {
        self.mark_cell(point, CellType::Entrance);
    }

    /// Tags the cell at `point` `Exit` and keeps its walls.
    pub fn mark_cell_as_exit(&mut self, point: Point)
        requires
            old(self).wf(),
            old(self)@.in_bounds(point),
        ensures
            final(self).wf(),
            final(self).width == old(self).width,
            final(self).height == old(self).height,
            final(self).maze_type == old(self).maze_type,
            final(self)@ == old(self)@.marked(point, CellType::Exit),
    {
        self.mark_cell(point, CellType::Exit);
    }

    /// Whether `(x, y)` names a cell of the maze.
    pub fn is_valid_coord(&self, x: i32, y: i32) -> (valid: bool)
        ensures
            valid == (0 <= x < self.width && 0 <= y < self.height),
    {
        x >= 0 && y >= 0 && (x as usize) < self.width && (y as usize) < self.height
    }

    /// The cell reached from `p` by the offset `(dx, dy)`, if the maze has
    /// such a cell.
    pub fn neighbor(&self, p: Point, dx: i32, dy: i32) -> (n: Option<Point>)
        requires
            self.wf(),
            self@.in_bounds(p),
            -2 <= dx <= 2,
            -2 <= dy <= 2,
        ensures
            n == if 0 <= p.x + dx < self.width && 0 <= p.y + dy < self.height {
                Some(p.shifted(dx as int, dy as int))
            } else {
                None
            },
    {
        let x: i64 = p.x as i64 + dx as i64;
        let y: i64 = p.y as i64 + dy as i64;
        if x <= i32::MAX as i64 && y <= i32::MAX as i64 && self.is_valid_coord(x as i32, y as i32) {
            Some(Point { x: x as usize, y: y as usize })
        } else {
            None
        }
    }

    /// The cells that can be entered from `current` by one move, in the
    /// order in which `dirs` lists the offsets that lead to them.
    #[verifier::rlimit(40)]
    pub fn open_neighbors(&self, current: Point, dirs: &Vec<(i32, i32)>) -> (open: Vec<Point>)
        requires
            self.wf(),
            self@.in_bounds(current),
            lists_unit_offsets(dirs@),
        ensures
            open@ == self@.open_cells(current, dirs@, dirs.len() as nat),
            open.len() <= dirs.len(),
            forall|i: int| 0 <= i < open.len() ==> self@.step(current, #[trigger] open[i]),
            forall|w: Point| #[trigger] self@.step(current, w) ==> open@.contains(w),
    {
        let mut open: Vec<Point> = Vec::new();
        let mut k: usize = 0;
        while k < dirs.len()
            invariant
                self.wf(),
                self@.in_bounds(current),
                lists_unit_offsets(dirs@),
                k <= dirs.len(),
                open.len() <= k,
                open@ == self@.open_cells(current, dirs@, k as nat),
                forall|i: int| 0 <= i < open.len() ==> self@.step(current, #[trigger] open[i]),
                forall|j: int, w: Point|
                    0 <= j < k && w.x == current.x + (#[trigger] dirs[j]).0 && w.y == current.y
                        + dirs[j].1 && #[trigger] self@.step(current, w) ==> open@.contains(w),
            decreases dirs.len() - k,
        {
            let (dx, dy) = dirs[k];
            assert(is_cardinal(dirs[k as int].0 as int, dirs[k as int].1 as int));
            let ghost before = open@;
            match self.neighbor(current, dx, dy) {
                Some(next) => {
                    if self.is_passable(current, next) {
                        open.push(next);
                        assert(open@[open.len() - 1] == next);
                    }
                },
                None => {},
            }
            proof {
                assert forall|j: int, w: Point|
                    0 <= j < k + 1 && w.x == current.x + (#[trigger] dirs[j]).0 && w.y
                        == current.y + dirs[j].1 && #[trigger] self@.step(
                        current,
                        w,
                    ) implies open@.contains(w) by {
                    if j < k {
                        assert(before.contains(w));
                        let i = choose|i: int| 0 <= i < before.len() && before[i] == w;
                        assert(open@[i] == w);
                    }
                }
            }
            k += 1;
        }
        proof {
            assert forall|w: Point| #[trigger] self@.step(current, w) implies open@.contains(w) by {
                let dx = w.x - current.x;
                let dy = w.y - current.y;
                assert(is_cardinal(dx, dy));
                let j = choose|j: int|
                    0 <= j < dirs.len() && (#[trigger] dirs[j]).0 == dx && dirs[j].1 == dy;
                assert(w.x == current.x + dirs[j].0 && w.y == current.y + dirs[j].1);
            }
        }
        open
    }

    /// Whether an exit can be put at `p`.
    pub fn is_exit_candidate(&self, p: Point) -> (b: bool)
        requires
            self.wf(),
        ensures
            b == self@.exit_candidate(p),
    {
        if p.x >= self.width || p.y >= self.height {
            return false;
        }
        let on_row = p.x >= 1 && p.x + 1 < self.width && (p.y == 0 || p.y + 1 == self.height);
        let on_column = p.y >= 1 && p.y + 1 < self.height && (p.x == 0 || p.x + 1 == self.width);
        if !on_row && !on_column {
            return false;
        }
        let dirs = Movements::direction_list();
        let open = self.open_neighbors(p, &dirs);
        proof {
            if open.len() > 0 {
                assert(self@.step(p, open[0]));
            }
            if self@.has_open_neighbor(p) {
                let q = choose|q: Point|
                    self@.in_bounds(q) && p.adjacent(q) && #[trigger] self@.passable(p, q);
                assert(self@.step(p, q));
                assert(open@.contains(q));
            }
        }
        open.len() > 0
    }

    /// A point on an edge of the outer ring, corners left out, that has a
    /// neighbour which can be entered: a place for an exit. Points are
    /// drawn at random and rejected until one qualifies. After a number of
    /// draws in proportion to the size of the ring, the ring is searched in
    /// row-major order instead, so that the call always ends. There is no
    /// point to return only where no point of the ring qualifies.
    #[verifier::rlimit(40)]
    pub fn get_random_boundary_point(&self, rng: &mut StdRng) -> (found: Option<Point>)
        requires
            self.wf(),
        ensures
            match found {
                Some(p) => self@.exit_candidate(p),
                None => forall|p: Point| !self@.exit_candidate(p),
            },
    {
        if self.width >= 3 && self.height >= 3 {
            let draws: u64 = 8 * (self.width as u64 + self.height as u64);
            let mut drawn: u64 = 0;
            while drawn < draws
                invariant
                    self.wf(),
                    self.width >= 3,
                    self.height >= 3,
                decreases draws - drawn,
            {
                let side = random_in_range(rng, 0, 4);
                let point = if side == 0 {
                    Point { x: random_in_range(rng, 1, self.width - 1), y: 0 }
                } else if side == 1 {
                    Point { x: self.width - 1, y: random_in_range(rng, 1, self.height - 1) }
                } else if side == 2 {
                    Point { x: random_in_range(rng, 1, self.width - 1), y: self.height - 1 }
                } else {
                    Point { x: 0, y: random_in_range(rng, 1, self.height - 1) }
                };
                if self.is_exit_candidate(point) {
                    return Some(point);
                }
                drawn += 1;
            }
        }
        let mut y: usize = 0;
        while y < self.height
            invariant
                self.wf(),
                y <= self.height,
                forall|p: Point| p.y < y ==> !self@.exit_candidate(p),
            decreases self.height - y,
        {
            let mut x: usize = 0;
            while x < self.width
                invariant
                    self.wf(),
                    y < self.height,
                    x <= self.width,
                    forall|p: Point| p.y < y ==> !self@.exit_candidate(p),
                    forall|p: Point| p.y == y && p.x < x ==> !self@.exit_candidate(p),
                decreases self.width - x,
            {
                let point = Point { x, y };
                if self.is_exit_candidate(point) {
                    return Some(point);
                }
                x += 1;
            }
            y += 1;
        }
        None
    }

    /// Whether the move from `current` onto `next` is blocked.
    pub fn is_not_passable(&self, current: Point, next: Point) -> (blocked: bool)
        requires
            self.wf(),
            self@.in_bounds(current),
            self@.in_bounds(next),
            self.maze_type == MazeType::Slim ==> current.adjacent(next),
        ensures
            blocked == !self@.passable(current, next),
    {
        match self.maze_type {
            MazeType::Thick => self.get_cell(next).get_type() == CellType::Wall,
            MazeType::Slim => {
                let towards_current = Movements::calculate_direction(current, next);
                let towards_next = Movements::get_opposite_direction(
                    towards_current.0,
                    towards_current.1,
                );
                self.get_cell(current).has_wall_in_direction(towards_next) || self.get_cell(
                    next,
                ).has_wall_in_direction(towards_current)
            },
        }
    }

    /// Whether one may move from `current` onto `next`.
    pub fn is_passable(&self, current: Point, next: Point) -> (open: bool)
        requires
            self.wf(),
            self@.in_bounds(current),
            self@.in_bounds(next),
            self.maze_type == MazeType::Slim ==> current.adjacent(next),
        ensures
            open == self@.passable(current, next),
    {
        !self.is_not_passable(current, next)
    }

    /// Opens the edge between two neighbouring cells of a maze with slim
    /// walls: clears the wall of each on the side of the other.
    pub fn remove_walls_between_cells(&mut self, current: Point, neighbor: Point)
        requires
            old(self).wf(),
            old(self).maze_type == MazeType::Slim,
            old(self)@.in_bounds(current),
            old(self)@.in_bounds(neighbor),
            current.adjacent(neighbor),
        ensures
            final(self).wf(),
            final(self).width == old(self).width,
            final(self).height == old(self).height,
            final(self).maze_type == old(self).maze_type,
            final(self)@ == (MazeView {
                cells: old(self)@.cells.update(
                    old(self)@.index(current),
                    old(self)@.cell(current).with_wall_bits(
                        crate::maze_cell::with_wall(
                            old(self)@.cell(current).walls,
                            wall_mask(neighbor.x - current.x, neighbor.y - current.y),
                            false,
                        ),
                    ),
                ).update(
                    old(self)@.index(neighbor),
                    old(self)@.cell(neighbor).with_wall_bits(
                        crate::maze_cell::with_wall(
                            old(self)@.cell(neighbor).walls,
                            wall_mask(current.x - neighbor.x, current.y - neighbor.y),
                            false,
                        ),
                    ),
                ),
                ..old(self)@
            }),
    {
        let towards_current = Movements::calculate_direction(current, neighbor);
        let towards_neighbor = Movements::get_opposite_direction(
            towards_current.0,
            towards_current.1,
        );
        let current_idx = self.get_index(current.x, current.y);
        let neighbor_idx = self.get_index(neighbor.x, neighbor.y);
        proof {
            if current_idx == neighbor_idx {
                self@.lemma_index_injective(current, neighbor);
            }
        }
        let mut cell = self.cells[current_idx];
        cell.set_wall_by_direction(towards_neighbor, false);
        self.cells[current_idx] = cell;
        let mut other = self.cells[neighbor_idx];
        other.set_wall_by_direction(towards_current, false);
        self.cells[neighbor_idx] = other;
    }
}

} // verus!
