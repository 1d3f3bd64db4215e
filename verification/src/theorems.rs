use vstd::prelude::*;
use crate::algorithms::maze_generation::{sole_tagged, well_generated};
use crate::algorithms::pathfinding::{
    complete_search_result, lemma_route_cells, marks_only, no_route_marked, route_marked,
    searchable, shortest_search_result,
};
use crate::algorithms::point::Point;
use crate::maze::{count_tagged, Maze, MazeType, MazeView};
use crate::maze_cell::{has_wall, is_wall_bit, with_wall, CellType, MazeCell};

verus! {

/// Two searches that both leave a shortest route on the same maze tag the
/// same number of cells `FinalPath`, whichever shortest routes they found.
pub proof fn theorem_shortest_routes_agree(before: MazeView, first: MazeView, second: MazeView)
    requires
        before.wf(),
        shortest_search_result(before, first),
        shortest_search_result(before, second),
    ensures
        first.final_path_cells().finite(),
        second.final_path_cells().finite(),
        first.final_path_cells().len() == second.final_path_cells().len(),
{
    let entrance = before.entrance()->0;
    let exit = before.exit()->0;
    if before.reachable(entrance, exit) {
        let one = choose|path: Seq<Point>|
            route_marked(before, first, path, entrance, exit) && before.shortest_between(
                path,
                entrance,
                exit,
            );
        let two = choose|path: Seq<Point>|
            route_marked(before, second, path, entrance, exit) && before.shortest_between(
                path,
                entrance,
                exit,
            );
        assert(before.walk_between(one, entrance, exit));
        assert(before.walk_between(two, entrance, exit));
        assert(one.len() == two.len());
        lemma_route_cells(before, first, one, entrance, exit);
        lemma_route_cells(before, second, two, entrance, exit);
    } else {
        assert(first.final_path_cells() =~= Set::<Point>::empty());
        assert(second.final_path_cells() =~= Set::<Point>::empty());
    }
}

/// A search leaves the entrance and the exit where they were, and
/// resetting the maze after it gives back the maze as it was before the
/// search, cell for cell: the search changed nothing but tags in the
/// current cells, which the reset replaces by the snapshot. So no tag of
/// the search is left where there was none.
pub proof fn theorem_reset_undoes_search(before: MazeView, after: MazeView)
    requires
        before.cells == before.original,
        marks_only(before, after),
    ensures
        after.entrance() == before.entrance(),
        after.exit() == before.exit(),
        after.restored() == before,
        after.restored().entrance() == before.entrance(),
        after.restored().exit() == before.exit(),
        before.unmarked() ==> after.restored().unmarked(),
{
}

/// Resetting twice is resetting once: the cells are those of the snapshot,
/// and the snapshot is untouched.
pub proof fn theorem_reset_is_idempotent(m: MazeView)
    ensures
        m.restored().restored() == m.restored(),
        m.restored().cells == m.original,
        m.restored().original == m.original,
{
}

/// A reset, a search and another reset end in the state after the first
/// reset.
pub proof fn theorem_reset_search_reset(m: MazeView, searched: MazeView)
    requires
        marks_only(m.restored(), searched),
    ensures
        searched.restored() == m.restored(),
{
    theorem_reset_undoes_search(m.restored(), searched);
}

proof fn lemma_count_none(cells: Seq<MazeCell>, tag: CellType)
    requires
        forall|j: int| 0 <= j < cells.len() ==> (#[trigger] cells[j]).cell_type != tag,
    ensures
        count_tagged(cells, tag) == 0,
    decreases cells.len(),
{
    if cells.len() > 0 {
        lemma_count_none(cells.drop_last(), tag);
    }
}

proof fn lemma_count_one(cells: Seq<MazeCell>, tag: CellType, at: int)
    requires
        0 <= at < cells.len(),
        cells[at].cell_type == tag,
        forall|j: int| 0 <= j < cells.len() && j != at ==> (#[trigger] cells[j]).cell_type != tag,
    ensures
        count_tagged(cells, tag) == 1,
    decreases cells.len(),
{
    if at == cells.len() - 1 {
        lemma_count_none(cells.drop_last(), tag);
    } else {
        lemma_count_one(cells.drop_last(), tag, at);
    }
}

/// The snapshot of a generated maze holds exactly one cell tagged
/// `Entrance` and exactly one tagged `Exit`.
pub proof fn theorem_one_entrance_one_exit(
    m: MazeView,
    maze_type: MazeType,
    width: usize,
    height: usize,
    entrance: Point,
)
    requires
        well_generated(m, maze_type, width, height, entrance),
    ensures
        count_tagged(m.original, CellType::Entrance) == 1,
        count_tagged(m.original, CellType::Exit) == 1,
{
    lemma_sole_counted(m, CellType::Entrance, entrance);
    lemma_sole_counted(m, CellType::Exit, m.exit()->0);
}

proof fn lemma_sole_counted(m: MazeView, tag: CellType, p: Point)
    requires
        m.wf(),
        m.width <= usize::MAX,
        m.height <= usize::MAX,
        sole_tagged(m, tag, p),
    ensures
        count_tagged(m.original, tag) == 1,
{
    m.lemma_index_in_range(p);
    let at = m.index(p);
    assert(m.original_cell(p).cell_type == tag);
    assert forall|j: int| 0 <= j < m.original.len() && j != at implies (
    #[trigger] m.original[j]).cell_type != tag by {
        m.lemma_point_at(j);
        let q = m.point_at(j);
        assert(m.original_cell(q) == m.original[j]);
        assert(q != p);
    }
    lemma_count_one(m.original, tag, at);
}

/// A search that gives up only where there is no route tags the entrance
/// and the exit of every generated maze `FinalPath`: it reaches the exit.
pub proof fn theorem_generated_maze_is_solved(
    m: MazeView,
    maze_type: MazeType,
    width: usize,
    height: usize,
    entrance: Point,
    searched: MazeView,
)
    requires
        well_generated(m, maze_type, width, height, entrance),
        complete_search_result(m, searched),
    ensures
        searched.cell(entrance).cell_type == CellType::FinalPath,
        searched.cell(m.exit()->0).cell_type == CellType::FinalPath,
{
    let exit = m.exit()->0;
    let path = choose|path: Seq<Point>| route_marked(m, searched, path, entrance, exit);
    assert(route_marked(m, searched, path, entrance, exit));
    assert(path[0] == entrance);
    assert(path[path.len() - 1] == exit);
    assert(path.contains(entrance));
    assert(path.contains(exit));
    m.lemma_walk_in_bounds(path, 0);
    m.lemma_walk_in_bounds(path, path.len() - 1);
}

/// What a complete search result says of the cells tagged `FinalPath`:
/// they are none, or they lie on one chain of moves from the entrance to
/// the exit that passes no cell twice.
pub proof fn theorem_final_path_is_chain(before: MazeView, after: MazeView)
    requires
        complete_search_result(before, after),
    ensures
        no_route_marked(after) || exists|path: Seq<Point>|
            {
                &&& before.walk_between(path, before.entrance()->0, before.exit()->0)
                &&& path.no_duplicates()
                &&& forall|p: Point|
                    after.in_bounds(p) && (#[trigger] after.cell(p)).cell_type
                        == CellType::FinalPath ==> path.contains(p)
            },
{
    if !no_route_marked(after) {
        let path = choose|path: Seq<Point>|
            route_marked(before, after, path, before.entrance()->0, before.exit()->0);
        assert(route_marked(before, after, path, before.entrance()->0, before.exit()->0));
    }
}

/// A generated maze is ready to be searched: it meets what every search
/// asks of the maze that it is given.
pub proof fn theorem_generated_maze_is_searchable(maze: &Maze, entrance: Point)
    requires
        maze.wf(),
        well_generated(maze@, maze.maze_type, maze.width, maze.height, entrance),
    ensures
        searchable(maze),
{
}

/// Setting or clearing one wall bit decides that bit and leaves the other
/// three as they were.
pub proof fn theorem_wall_bits_are_independent(walls: u8, mask: u8, other: u8, on: bool)
    requires
        is_wall_bit(mask),
        is_wall_bit(other),
    ensures
        has_wall(with_wall(walls, mask, on), mask) == on,
        other != mask ==> has_wall(with_wall(walls, mask, on), other) == has_wall(walls, other),
{
    assert((walls | mask) & mask != 0) by (bit_vector)
        requires
            mask != 0,
    ;
    assert((walls & !mask) & mask == 0) by (bit_vector);
    if other != mask {
        assert(other & mask == 0) by (bit_vector)
            requires
                mask == 8 || mask == 4 || mask == 2 || mask == 1,
                other == 8 || other == 4 || other == 2 || other == 1,
                other != mask,
        ;
        assert((walls | mask) & other == walls & other) by (bit_vector)
            requires
                other & mask == 0,
        ;
        assert((walls & !mask) & other == walls & other) by (bit_vector)
            requires
                other & mask == 0,
        ;
    }
}

} // verus!
