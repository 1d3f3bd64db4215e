use rand::rngs::StdRng;
use vstd::prelude::*;
use super::directions::{lemma_reordered_offsets, lists_unit_offsets, Movements};
use super::grid::{count_false, lemma_count_false_update, Grid};
use super::pathfinding::{
    complete_search_result, frames_extend, frames_up_to_date, lemma_frames_extend_start,
    lemma_marks_only_reflexive, marked_cells, marks_only, route_marked, searchable, steps_after,
    Frame, PathfindingStats, SnapshotSink,
};
use super::point::Point;
use super::search::tag_and_show;
use crate::maze::{Maze, MazeView};
use crate::maze_cell::{CellType, MazeCell};
use crate::random::choose_all;

verus! {

/// Where a depth-first search gets the order in which it tries the
/// neighbours of a cell.
pub trait DirectionSource {
    /// The four unit offsets in the order in which to try them.
    fn directions(&mut self) -> (dirs: Vec<(i32, i32)>)
        ensures
            lists_unit_offsets(dirs@),
    ;
}

/// Always the same order: down, right, up, left.
pub struct FixedOrder {}

impl DirectionSource for FixedOrder {
    fn directions(&mut self) -> (dirs: Vec<(i32, i32)>) {
        Movements::direction_list()
    }
}

/// A fresh random order at each call.
impl DirectionSource for StdRng {
    fn directions(&mut self) -> (dirs: Vec<(i32, i32)>) {
        let base = Movements::direction_list();
        let dirs = choose_all(&base, self);
        proof {
            lemma_reordered_offsets(dirs@, base@);
        }
        dirs
    }
}

/// The cell at `p` while a depth-first search is under way: the cells of
/// the stack carry `FinalPath`, but for the last, which carries `tip`; the
/// other cells that were entered carry `Visited`; the rest is untouched.
pub open spec fn depth_cell(
    m: MazeView,
    stack: Seq<Point>,
    entered: Set<Point>,
    tip: CellType,
    p: Point,
) -> MazeCell {
    let walls = m.cell(p).walls;
    if stack.len() > 0 && p == stack.last() {
        MazeCell { cell_type: tip, walls }
    } else if stack.contains(p) {
        MazeCell { cell_type: CellType::FinalPath, walls }
    } else if entered.contains(p) {
        MazeCell { cell_type: CellType::Visited, walls }
    } else {
        m.cell(p)
    }
}

/// The label 0 for every cell that was entered.
pub open spec fn entered_labels(entered: Set<Point>) -> Map<Point, nat> {
    Map::new(|p: Point| entered.contains(p), |p: Point| 0nat)
}

proof fn lemma_push_contains(s: Seq<Point>, last: Point, p: Point)
    ensures
        s.push(last).contains(p) <==> s.contains(p) || p == last,
{
    let longer = s.push(last);
    if s.contains(p) {
        let i = choose|i: int| 0 <= i < s.len() && s[i] == p;
        assert(longer[i] == p);
    }
    assert(longer[s.len() as int] == last);
    if longer.contains(p) {
        let i = choose|i: int| 0 <= i < longer.len() && longer[i] == p;
        if i < s.len() {
            assert(s[i] == p);
        }
    }
}

proof fn lemma_drop_last_contains(s: Seq<Point>, p: Point)
    requires
        s.len() > 0,
        s.no_duplicates(),
    ensures
        s.drop_last().contains(p) <==> s.contains(p) && p != s.last(),
        s.drop_last().no_duplicates(),
{
    let shorter = s.drop_last();
    if shorter.contains(p) {
        let i = choose|i: int| 0 <= i < shorter.len() && shorter[i] == p;
        assert(s[i] == p);
    }
    if s.contains(p) && p != s.last() {
        let i = choose|i: int| 0 <= i < s.len() && s[i] == p;
        assert(shorter[i] == p);
    }
}

/// What the stack of a depth-first search is: a chain of moves without
/// repetition that starts at the entrance, through cells that were entered.
#[verifier::opaque]
pub open spec fn stack_ok(m: MazeView, entrance: Point, stack: Seq<Point>,
    entered: Set<Point>) -> bool {
    &&& stack.no_duplicates()
    &&& forall|i: int| 0 <= i < stack.len() ==> entered.contains(#[trigger] stack[i])
    &&& stack.len() > 0 ==> m.is_walk(stack) && stack[0] == entrance
}

/// What the neighbour lists of a depth-first search are: for each cell of
/// the stack, every cell that can be entered from it, of which those before
/// the cursor were entered already.
#[verifier::opaque]
pub open spec fn options_ok(
    m: MazeView,
    stack: Seq<Point>,
    options: Seq<Vec<Point>>,
    cursor: Seq<usize>,
    entered: Set<Point>,
) -> bool {
    &&& options.len() == stack.len()
    &&& cursor.len() == stack.len()
    &&& forall|i: int|
        0 <= i < stack.len() ==> {
            &&& (#[trigger] cursor[i]) <= options[i].len()
            &&& forall|j: int|
                0 <= j < options[i].len() ==> m.step(stack[i], #[trigger] options[i][j])
            &&& forall|w: Point| #[trigger] m.step(stack[i], w) ==> options[i]@.contains(w)
            &&& forall|j: int| 0 <= j < cursor[i] ==> entered.contains(#[trigger] options[i][j])
        }
}

/// Every cell that can be entered from a cell that was entered and has
/// left the stack was entered as well.
#[verifier::opaque]
pub open spec fn settled_ok(m: MazeView, stack: Seq<Point>, entered: Set<Point>) -> bool {
    m.settled_except(entered_labels(entered), Set::new(|p: Point| stack.contains(p)))
}

/// The cells that were entered are those that the grid of visits marks,
/// each can be reached from the entrance and can take a tag, and the
/// entrance is one of them.
#[verifier::opaque]
pub open spec fn entered_ok(
    m: MazeView,
    entrance: Point,
    visited: Grid<bool>,
    entered: Set<Point>,
) -> bool {
    &&& visited.wf()
    &&& visited.width == m.width
    &&& visited.height == m.height
    &&& entered.finite()
    &&& forall|p: Point| #[trigger] entered.contains(p) <==> m.in_bounds(p) && visited.at(p)
    &&& forall|p: Point| #[trigger]
        entered.contains(p) ==> m.reachable(entrance, p) && m.markable(p)
}

/// The cells of `now` are tagged as the search has left them.
#[verifier::opaque]
pub open spec fn cells_ok(
    m: MazeView,
    now: MazeView,
    stack: Seq<Point>,
    entered: Set<Point>,
    tip: CellType,
) -> bool {
    forall|p: Point| m.in_bounds(p)
        ==> #[trigger] now.cell(p) == depth_cell(m, stack, entered, tip, p)
}

/// What the last cell of the stack is.
proof fn lemma_top(
    m: MazeView,
    entrance: Point,
    visited: Grid<bool>,
    stack: Seq<Point>,
    options: Seq<Vec<Point>>,
    cursor: Seq<usize>,
    entered: Set<Point>,
)
    requires
        entered_ok(m, entrance, visited, entered),
        stack_ok(m, entrance, stack, entered),
        options_ok(m, stack, options, cursor, entered),
        stack.len() > 0,
    ensures
        options.len() == stack.len(),
        cursor.len() == stack.len(),
        visited.wf(),
        visited.width == m.width,
        visited.height == m.height,
        entered.contains(stack.last()),
        m.in_bounds(stack.last()),
        m.markable(stack.last()),
        cursor.last() <= options.last().len(),
        forall|j: int| 0 <= j < options.last().len()
            ==> m.step(stack.last(), #[trigger] options.last()[j]),
        forall|p: Point| m.in_bounds(p) ==> (entered.contains(p) <==> #[trigger] visited.at(p)),
        stack.len() >= 2 ==> entered.contains(stack[stack.len() - 2]) && m.in_bounds(
            stack[stack.len() - 2],
        ) && m.markable(stack[stack.len() - 2]) && stack[stack.len() - 2] != stack.last(),
{
    reveal(entered_ok);
    reveal(stack_ok);
    reveal(options_ok);
    let top = stack.len() - 1;
    assert(entered.contains(stack[top]));
    assert(cursor[top] <= options[top].len());
    if stack.len() >= 2 {
        assert(entered.contains(stack[top - 1]));
    }
}

/// Passing over an option of the last cell that was entered before keeps
/// the neighbour lists in order.
proof fn lemma_pass(
    m: MazeView,
    stack: Seq<Point>,
    options: Seq<Vec<Point>>,
    cursor: Seq<usize>,
    entered: Set<Point>,
)
    requires
        options_ok(m, stack, options, cursor, entered),
        stack.len() > 0,
        cursor.len() == stack.len(),
        options.len() == stack.len(),
        cursor.last() < options.last().len(),
        entered.contains(options.last()[cursor.last() as int]),
    ensures
        options_ok(
            m,
            stack,
            options,
            cursor.update(cursor.len() - 1, (cursor.last() + 1) as usize),
            entered,
        ),
{
    reveal(options_ok);
    let top = cursor.len() - 1;
    let bumped = cursor.update(top, (cursor.last() + 1) as usize);
    assert forall|i: int| 0 <= i < stack.len() implies {
        &&& (#[trigger] bumped[i]) <= options[i].len()
        &&& forall|j: int| 0 <= j < options[i].len() ==> m.step(stack[i], #[trigger] options[i][j])
        &&& forall|w: Point| #[trigger] m.step(stack[i], w) ==> options[i]@.contains(w)
        &&& forall|j: int| 0 <= j < bumped[i] ==> entered.contains(#[trigger] options[i][j])
    } by {
        assert(cursor[i] <= options[i].len());
    }
}

/// Entering a cell keeps the stack, the neighbour lists and the settled
/// cells in order.
proof fn lemma_push(
    m: MazeView,
    entrance: Point,
    stack: Seq<Point>,
    options: Seq<Vec<Point>>,
    cursor: Seq<usize>,
    entered: Set<Point>,
    next: Point,
    list: Vec<Point>,
)
    requires
        stack_ok(m, entrance, stack, entered),
        options_ok(m, stack, options, cursor, entered.insert(next)),
        settled_ok(m, stack, entered),
        m.in_bounds(next),
        !entered.contains(next),
        stack.len() == 0 ==> next == entrance,
        stack.len() > 0 ==> m.step(stack.last(), next),
        forall|j: int| 0 <= j < list.len() ==> m.step(next, #[trigger] list[j]),
        forall|w: Point| #[trigger] m.step(next, w) ==> list@.contains(w),
    ensures
        stack_ok(m, entrance, stack.push(next), entered.insert(next)),
        options_ok(m, stack.push(next), options.push(list), cursor.push(0), entered.insert(next)),
        settled_ok(m, stack.push(next), entered.insert(next)),
        !stack.contains(next),
        m.walk_between(stack.push(next), entrance, next),
{
    reveal(stack_ok);
    reveal(options_ok);
    reveal(settled_ok);
    let stack2 = stack.push(next);
    let entered2 = entered.insert(next);
    assert(!stack.contains(next)) by {
        if stack.contains(next) {
            let i = choose|i: int| 0 <= i < stack.len() && stack[i] == next;
            assert(entered.contains(stack[i]));
        }
    }
    if stack.len() > 0 {
        m.lemma_walk_push(stack, next);
    } else {
        assert(stack2 =~= seq![next]);
        assert(m.is_walk(stack2));
    }
    assert(stack2.no_duplicates()) by {
        assert forall|i: int, j: int|
            0 <= i < stack2.len() && 0 <= j < stack2.len() && i != j implies stack2[i]
            != stack2[j] by {
            if i < stack.len() {
                assert(stack.contains(stack[i]));
            }
            if j < stack.len() {
                assert(stack.contains(stack[j]));
            }
        }
    }
    assert forall|i: int| 0 <= i < stack2.len() implies entered2.contains(#[trigger] stack2[i]) by {
        if i < stack.len() {
            assert(entered.contains(stack[i]));
        }
    }
    let options2 = options.push(list);
    let cursor2 = cursor.push(0);
    assert forall|i: int| 0 <= i < stack2.len() implies {
        &&& (#[trigger] cursor2[i]) <= options2[i].len()
        &&& forall|j: int|
            0 <= j < options2[i].len() ==> m.step(stack2[i], #[trigger] options2[i][j])
        &&& forall|w: Point| #[trigger] m.step(stack2[i], w) ==> options2[i]@.contains(w)
        &&& forall|j: int| 0 <= j < cursor2[i] ==> entered2.contains(#[trigger] options2[i][j])
    } by {
        if i < stack.len() {
            assert(cursor[i] <= options[i].len());
            assert(stack2[i] == stack[i]);
            assert(options2[i] == options[i]);
        }
    }
    assert forall|u: Point, w: Point|
        #[trigger] m.step(u, w) && entered_labels(entered2).dom().contains(u) && !Set::new(
            |p: Point| stack2.contains(p),
        ).contains(u) implies entered_labels(entered2).dom().contains(w) && entered_labels(
        entered2,
    )[w] <= entered_labels(entered2)[u] + 1 by {
        lemma_push_contains(stack, next, u);
        assert(entered_labels(entered).dom().contains(u));
        assert(!Set::new(|p: Point| stack.contains(p)).contains(u));
        assert(entered_labels(entered).dom().contains(w));
    }
}

/// Backing out of the last cell, once all its options are tried, keeps
/// the stack, the neighbour lists and the settled cells in order.
proof fn lemma_pop(
    m: MazeView,
    entrance: Point,
    stack: Seq<Point>,
    options: Seq<Vec<Point>>,
    cursor: Seq<usize>,
    entered: Set<Point>,
)
    requires
        stack_ok(m, entrance, stack, entered),
        options_ok(m, stack, options, cursor, entered),
        settled_ok(m, stack, entered),
        stack.len() > 0,
        cursor.last() == options.last().len(),
    ensures
        stack_ok(m, entrance, stack.drop_last(), entered),
        options_ok(m, stack.drop_last(), options.drop_last(), cursor.drop_last(), entered),
        settled_ok(m, stack.drop_last(), entered),
{
    reveal(stack_ok);
    reveal(options_ok);
    reveal(settled_ok);
    let top = stack.len() - 1;
    let current = stack[top];
    let stack2 = stack.drop_last();
    lemma_drop_last_contains(stack, current);
    if stack2.len() > 0 {
        m.lemma_walk_prefix(stack, stack.len() - 1);
        assert(stack2 =~= stack.subrange(0, stack.len() - 1));
    }
    assert forall|i: int| 0 <= i < stack2.len() implies entered.contains(#[trigger] stack2[i]) by {
        assert(entered.contains(stack[i]));
    }
    let options2 = options.drop_last();
    let cursor2 = cursor.drop_last();
    assert forall|i: int| 0 <= i < stack2.len() implies {
        &&& (#[trigger] cursor2[i]) <= options2[i].len()
        &&& forall|j: int|
            0 <= j < options2[i].len() ==> m.step(stack2[i], #[trigger] options2[i][j])
        &&& forall|w: Point| #[trigger] m.step(stack2[i], w) ==> options2[i]@.contains(w)
        &&& forall|j: int| 0 <= j < cursor2[i] ==> entered.contains(#[trigger] options2[i][j])
    } by {
        assert(cursor[i] <= options[i].len());
        assert(stack2[i] == stack[i]);
    }
    assert(cursor[top] <= options[top].len());
    assert forall|u: Point, w: Point|
        #[trigger] m.step(u, w) && entered_labels(entered).dom().contains(u) && !Set::new(
            |p: Point| stack2.contains(p),
        ).contains(u) implies entered_labels(entered).dom().contains(w) && entered_labels(
        entered,
    )[w] <= entered_labels(entered)[u] + 1 by {
        lemma_drop_last_contains(stack, u);
        if u == current {
            assert(m.step(stack[top], w));
            assert(options[top]@.contains(w));
            let j = choose|j: int| 0 <= j < options[top]@.len() && options[top]@[j] == w;
            assert(entered.contains(options[top][j]));
        } else {
            assert(!Set::new(|p: Point| stack.contains(p)).contains(u));
        }
    }
}

/// A cell that was just marked in the grid of visits, and can be reached
/// and tagged, joins the cells that were entered.
proof fn lemma_entered_insert(
    m: MazeView,
    entrance: Point,
    before: Grid<bool>,
    after: Grid<bool>,
    entered: Set<Point>,
    next: Point,
)
    requires
        entered_ok(m, entrance, before, entered),
        m.in_bounds(next),
        m.reachable(entrance, next),
        m.markable(next),
        after.wf(),
        after.width == before.width,
        after.height == before.height,
        after.at(next),
        forall|q: Point| before.in_bounds(q) && q != next
            ==> #[trigger] after.at(q) == before.at(q),
    ensures
        entered_ok(m, entrance, after, entered.insert(next)),
{
    reveal(entered_ok);
    let entered2 = entered.insert(next);
    assert forall|p: Point| #[trigger] entered2.contains(p) <==> m.in_bounds(p) && after.at(p) by {
        if p != next {
            assert(entered.contains(p) <==> m.in_bounds(p) && before.at(p));
        }
    }
}

/// Giving the last cell of the stack another tag changes the tag of the
/// tip.
proof fn lemma_cells_retag(
    m: MazeView,
    now: MazeView,
    after: MazeView,
    stack: Seq<Point>,
    entered: Set<Point>,
    tip: CellType,
    tag: CellType,
)
    requires
        cells_ok(m, now, stack, entered, tip),
        stack.len() > 0,
        m.in_bounds(stack.last()),
        after.cell(stack.last())
            == (MazeCell { cell_type: tag, walls: now.cell(stack.last()).walls }),
        forall|q: Point|
            m.in_bounds(q) && q != stack.last() ==> #[trigger] after.cell(q) == now.cell(q),
    ensures
        cells_ok(m, after, stack, entered, tag),
{
    reveal(cells_ok);
    assert forall|p: Point| m.in_bounds(p) implies #[trigger] after.cell(p) == depth_cell(
        m,
        stack,
        entered,
        tag,
        p,
    ) by {
        assert(now.cell(p) == depth_cell(m, stack, entered, tip, p));
    }
}

/// Tagging a cell that is entered, on top of a stack whose cells all carry
/// `FinalPath`, leaves the cells as a search with the longer stack leaves
/// them.
proof fn lemma_cells_push(
    m: MazeView,
    now: MazeView,
    after: MazeView,
    stack: Seq<Point>,
    entered: Set<Point>,
    next: Point,
    tag: CellType,
)
    requires
        cells_ok(m, now, stack, entered, CellType::FinalPath),
        m.in_bounds(next),
        !entered.contains(next),
        !stack.contains(next),
        after.cell(next) == (MazeCell { cell_type: tag, walls: now.cell(next).walls }),
        forall|q: Point| m.in_bounds(q) && q != next ==> #[trigger] after.cell(q) == now.cell(q),
    ensures
        cells_ok(m, after, stack.push(next), entered.insert(next), tag),
        now.cell(next) == m.cell(next),
{
    reveal(cells_ok);
    assert(now.cell(next) == depth_cell(m, stack, entered, CellType::FinalPath, next));
    assert forall|p: Point| m.in_bounds(p) implies #[trigger] after.cell(p) == depth_cell(
        m,
        stack.push(next),
        entered.insert(next),
        tag,
        p,
    ) by {
        lemma_push_contains(stack, next, p);
        assert(now.cell(p) == depth_cell(m, stack, entered, CellType::FinalPath, p));
        if stack.len() > 0 && p == stack.last() {
            assert(stack[stack.len() - 1] == p);
            assert(stack.contains(p));
        }
    }
}

/// Backing out of the last cell of the stack, which is tagged `Visited`
/// while the cell below it takes the tag of the tip, leaves the cells as a
/// search with the shorter stack leaves them.
proof fn lemma_cells_pop(
    m: MazeView,
    now: MazeView,
    after: MazeView,
    stack: Seq<Point>,
    entered: Set<Point>,
    tip: CellType,
)
    requires
        cells_ok(m, now, stack, entered, tip),
        stack.len() > 0,
        stack.no_duplicates(),
        entered.contains(stack.last()),
        m.in_bounds(stack.last()),
        after.cell(stack.last()) == (MazeCell {
            cell_type: CellType::Visited,
            walls: now.cell(stack.last()).walls,
        }),
        stack.len() >= 2 ==> after.cell(stack[stack.len() - 2]) == (MazeCell {
            cell_type: tip,
            walls: now.cell(stack[stack.len() - 2]).walls,
        }),
        forall|q: Point|
            m.in_bounds(q) && q != stack.last() && !(stack.len() >= 2 && q == stack[stack.len()
                - 2]) ==> #[trigger] after.cell(q) == now.cell(q),
    ensures
        cells_ok(m, after, stack.drop_last(), entered, tip),
{
    reveal(cells_ok);
    let shorter = stack.drop_last();
    assert forall|p: Point| m.in_bounds(p) implies #[trigger] after.cell(p) == depth_cell(
        m,
        shorter,
        entered,
        tip,
        p,
    ) by {
        lemma_drop_last_contains(stack, p);
        assert(now.cell(p) == depth_cell(m, stack, entered, tip, p));
        if stack.len() >= 2 {
            assert(shorter[shorter.len() - 1] == stack[stack.len() - 2]);
            assert(stack.contains(stack[stack.len() - 2]));
            if p == stack[stack.len() - 2] {
                assert(now.cell(p).walls == m.cell(p).walls);
            }
        }
        if p == stack.last() {
            assert(now.cell(p).walls == m.cell(p).walls);
        }
    }
}

/// A depth-first search that has stopped, with the exit on top of its stack
/// or with an empty stack, has left a complete search result, and the
/// cells that carry a tag of the search are those that it entered.
pub proof fn lemma_depth_search_done(
    m: MazeView,
    after: MazeView,
    entrance: Point,
    exit: Point,
    visited: Grid<bool>,
    stack: Seq<Point>,
    entered: Set<Point>,
    found: bool,
    tip: CellType,
)
    requires
        m.wf(),
        m.unmarked(),
        m.entrance() == Some(entrance),
        m.exit() == Some(exit),
        after.same_topology(m),
        entered_ok(m, entrance, visited, entered),
        entered.contains(entrance),
        stack_ok(m, entrance, stack, entered),
        settled_ok(m, stack, entered),
        cells_ok(m, after, stack, entered, tip),
        found ==> stack.len() > 0 && stack.last() == exit && tip == CellType::FinalPath,
        !found ==> stack.len() == 0 && !entered.contains(exit),
    ensures
        complete_search_result(m, after),
        marked_cells(after) == entered,
{
    reveal(entered_ok);
    reveal(stack_ok);
    reveal(settled_ok);
    reveal(cells_ok);
    assert forall|p: Point| after.in_bounds(p) implies (#[trigger] after.cell(p)) == m.cell(p)
        || after.cell(p).is_search_mark() by {
        assert(after.cell(p) == depth_cell(m, stack, entered, tip, p));
    }
    assert forall|p: Point|
        after.in_bounds(p) && #[trigger] after.cell(p) != m.cell(p) implies m.reachable(
        entrance,
        p,
    ) by {
        assert(after.cell(p) == depth_cell(m, stack, entered, tip, p));
        if stack.contains(p) {
            let i = choose|i: int| 0 <= i < stack.len() && stack[i] == p;
            assert(entered.contains(stack[i]));
        }
    }
    assert(marked_cells(after) =~= entered) by {
        assert forall|p: Point| marked_cells(after).contains(p) <==> entered.contains(p) by {
            if m.in_bounds(p) {
                assert(after.cell(p) == depth_cell(m, stack, entered, tip, p));
                assert(!m.cell(p).is_search_mark());
                if stack.contains(p) {
                    let i = choose|i: int| 0 <= i < stack.len() && stack[i] == p;
                    assert(entered.contains(stack[i]));
                }
            }
        }
    }
    if found {
        assert(m.walk_between(stack, entrance, exit));
        assert(route_marked(m, after, stack, entrance, exit)) by {
            assert forall|p: Point| after.in_bounds(p) implies ((#[trigger] after.cell(
                p,
            )).cell_type == CellType::FinalPath <==> stack.contains(p)) by {
                assert(after.cell(p) == depth_cell(m, stack, entered, tip, p));
                assert(!m.cell(p).is_search_mark());
                if p == stack.last() {
                    assert(stack[stack.len() - 1] == p);
                }
            }
        }
    } else {
        let labels = entered_labels(entered);
        let none = Set::new(|p: Point| stack.contains(p));
        assert forall|p: Point| m.reachable(entrance, p) implies entered.contains(p) by {
            let walk = choose|walk: Seq<Point>| m.walk_between(walk, entrance, p);
            if !entered.contains(p) {
                let i = m.lemma_frontier_on_walk(labels, none, walk);
                assert(stack.contains(walk[i]));
            }
        }
        assert forall|p: Point| after.in_bounds(p) implies ((#[trigger] after.cell(p)).cell_type
            == CellType::Visited <==> m.reachable(entrance, p)) by {
            assert(after.cell(p) == depth_cell(m, stack, entered, tip, p));
            assert(!m.cell(p).is_search_mark());
            assert(!stack.contains(p));
        }
        assert forall|p: Point| after.in_bounds(p) implies (#[trigger] after.cell(p)).cell_type
            != CellType::FinalPath by {
            assert(after.cell(p) == depth_cell(m, stack, entered, tip, p));
            assert(!m.cell(p).is_search_mark());
            assert(!stack.contains(p));
        }
        assert(!m.reachable(entrance, exit));
    }
}

/// The state of a depth-first search with an explicit stack.
pub struct DepthSearch {
    /// The cells from the entrance to the cell of the moment.
    pub stack: Vec<Point>,
    /// For each cell of the stack, the cells that can be entered from it.
    pub options: Vec<Vec<Point>>,
    /// For each cell of the stack, how many of its options were tried.
    pub cursor: Vec<usize>,
    /// Which cells were entered.
    pub visited: Grid<bool>,
    /// Whether the exit was entered.
    pub found: bool,
    /// The cells that were entered.
    pub entered: Ghost<Set<Point>>,
}

impl DepthSearch {
    /// The tag of the last cell of the stack.
    pub open spec fn tip(&self, speculative: bool) -> CellType {
        if self.found || speculative {
            CellType::FinalPath
        } else {
            CellType::Visited
        }
    }

    /// How many options of the last cell of the stack are untried.
    pub open spec fn untried(&self) -> int {
        if self.stack@.len() > 0 {
            self.options@.last().len() - self.cursor@.last()
        } else {
            0
        }
    }

    /// What holds of the search between any two of its steps, in the maze
    /// `m` whose cells are tagged as `now` shows.
    pub open spec fn inv(
        &self,
        m: MazeView,
        now: MazeView,
        entrance: Point,
        exit: Point,
        speculative: bool,
    ) -> bool {
        let entered = self.entered@;
        &&& m.wf()
        &&& m.in_bounds(entrance)
        &&& m.in_bounds(exit)
        &&& entrance != exit
        &&& now.same_topology(m)
        &&& marks_only(m, now)
        &&& entered.contains(entrance)
        &&& entered_ok(m, entrance, self.visited, entered)
        &&& stack_ok(m, entrance, self.stack@, entered)
        &&& options_ok(m, self.stack@, self.options@, self.cursor@, entered)
        &&& settled_ok(m, self.stack@, entered)
        &&& cells_ok(m, now, self.stack@, entered, self.tip(speculative))
        &&& self.found ==> self.stack@.len() > 0 && self.stack@.last() == exit
        &&& !self.found ==> !entered.contains(exit)
    }

    /// Whether `self` is further along than `before`: it has found the
    /// exit, or entered more cells, or has a shorter stack, or has fewer
    /// untried options on top of a stack of the same length.
    pub open spec fn further_than(&self, before: &DepthSearch) -> bool {
        ||| self.found && !before.found
        ||| self.found == before.found && count_false(self.visited.cells@) < count_false(
            before.visited.cells@,
        )
        ||| self.found == before.found && count_false(self.visited.cells@) == count_false(
            before.visited.cells@,
        ) && self.stack@.len() < before.stack@.len()
        ||| self.found == before.found && count_false(self.visited.cells@) == count_false(
            before.visited.cells@,
        ) && self.stack@.len() == before.stack@.len() && 0 <= self.untried() < before.untried()
    }

    /// Enters `next`, the entrance or a cell that can be entered from the
    /// last cell of the stack: tags it, counts a step, sends a snapshot and
    /// puts it on the stack with the cells that can be entered from it.
    /// The cells of the stack all carry `FinalPath` at this moment.
    fn enter<S: DirectionSource>(
        &mut self,
        next: Point,
        maze: &mut Maze,
        sink: &mut SnapshotSink,
        stats: &mut PathfindingStats,
        source: &mut S,
        speculative: bool,
        report: bool,
        Ghost(m): Ghost<MazeView>,
        Ghost(entrance): Ghost<Point>,
        exit: Point,
        Ghost(frames0): Ghost<Seq<Frame>>,
    )
        requires
            old(maze).wf(),
            m.wf(),
            m.in_bounds(entrance),
            m.in_bounds(exit),
            entrance != exit,
            old(maze)@.same_topology(m),
            marks_only(m, old(maze)@),
            !old(self).found,
            !old(self).entered@.contains(exit),
            entered_ok(m, entrance, old(self).visited, old(self).entered@),
            stack_ok(m, entrance, old(self).stack@, old(self).entered@),
            options_ok(
                m,
                old(self).stack@,
                old(self).options@,
                old(self).cursor@,
                old(self).entered@.insert(next),
            ),
            settled_ok(m, old(self).stack@, old(self).entered@),
            cells_ok(m, old(maze)@, old(self).stack@, old(self).entered@, CellType::FinalPath),
            m.in_bounds(next),
            m.markable(next),
            !old(self).entered@.contains(next),
            old(self).stack@.len() == 0 ==> next == entrance,
            old(self).stack@.len() > 0 ==> m.step(old(self).stack@.last(), next) && old(
                self,
            ).entered@.contains(entrance),
            frames_extend(frames0, old(sink)@, m),
            frames_up_to_date(frames0, old(sink)@, m, old(maze)@),
        ensures
            final(maze).wf(),
            final(maze).width == old(maze).width,
            final(maze).height == old(maze).height,
            final(maze).maze_type == old(maze).maze_type,
            final(self).inv(m, final(maze)@, entrance, exit, speculative),
            final(self).found == (next == exit),
            final(self).entered@ == old(self).entered@.insert(next),
            final(self).stack@.len() == old(self).stack@.len() + 1,
            count_false(final(self).visited.cells@) + 1 == count_false(old(self).visited.cells@),
            final(stats).steps == steps_after(old(stats).steps, 1),
            final(sink).follows(old(sink)),
            frames_extend(frames0, final(sink)@, m),
            frames_up_to_date(frames0, final(sink)@, m, final(maze)@),
            final(sink)@.len() > old(sink)@.len(),
            final(sink).shows(final(maze)),
    {
        let ghost before = *old(self);
        let ghost shown = maze@;
        let ghost entered = self.entered@;
        let reached = next == exit;
        let tag = if reached || speculative {
            CellType::FinalPath
        } else {
            CellType::Visited
        };
        proof {
            reveal(entered_ok);
            self.visited.lemma_index(next);
            m.lemma_index_in_range(next);
            assert(!self.visited.at(next));
            lemma_count_false_update(self.visited.cells@, next.y * self.visited.width + next.x);
            assert(shown.cell(next) == m.cell(next)) by {
                reveal(cells_ok);
                reveal(stack_ok);
                assert(shown.cell(next) == depth_cell(
                    m,
                    before.stack@,
                    entered,
                    CellType::FinalPath,
                    next,
                ));
                if before.stack@.contains(next) {
                    let i = choose|i: int| 0 <= i < before.stack@.len() && before.stack@[i] == next;
                    assert(entered.contains(before.stack@[i]));
                }
            }
        }
        self.visited.set(next, true);
        if stats.steps < usize::MAX {
            stats.new_step();
        }
        tag_and_show(
            maze,
            sink,
            next,
            tag,
            if report {
                Some(*stats)
            } else {
                None
            },
            Ghost(m),
            Ghost(frames0),
        );
        let dirs = source.directions();
        proof {
            m.lemma_same_topology_step_all(maze@, next);
        }
        let list = maze.open_neighbors(next, &dirs);
        proof {
            lemma_push(
                m,
                entrance,
                self.stack@,
                self.options@,
                self.cursor@,
                entered,
                next,
                list,
            );
            lemma_entered_insert(m, entrance, before.visited, self.visited, entered, next);
            lemma_cells_push(m, shown, maze@, before.stack@, entered, next, tag);
            self.entered@ = entered.insert(next);
        }
        self.stack.push(next);
        self.options.push(list);
        self.cursor.push(0);
        if reached {
            self.found = true;
        }
    }

    /// Moves on from the last cell of the stack to `next`, its next
    /// option, which was not entered before.
    fn advance<S: DirectionSource>(
        &mut self,
        next: Point,
        maze: &mut Maze,
        sink: &mut SnapshotSink,
        stats: &mut PathfindingStats,
        source: &mut S,
        speculative: bool,
        report: bool,
        Ghost(m): Ghost<MazeView>,
        Ghost(entrance): Ghost<Point>,
        exit: Point,
        Ghost(frames0): Ghost<Seq<Frame>>,
    )
        requires
            old(maze).wf(),
            old(self).inv(m, old(maze)@, entrance, exit, speculative),
            !old(self).found,
            old(self).stack@.len() > 0,
            old(self).cursor@.len() > 0,
            old(self).options@.len() > 0,
            old(self).cursor@.last() < old(self).options@.last().len(),
            next == old(self).options@.last()[old(self).cursor@.last() as int],
            !old(self).visited.at(next),
            frames_extend(frames0, old(sink)@, m),
            frames_up_to_date(frames0, old(sink)@, m, old(maze)@),
        ensures
            final(maze).wf(),
            final(maze).width == old(maze).width,
            final(maze).height == old(maze).height,
            final(maze).maze_type == old(maze).maze_type,
            final(self).inv(m, final(maze)@, entrance, exit, speculative),
            final(self).further_than(old(self)),
            final(self).entered@ == old(self).entered@.insert(next),
            !old(self).entered@.contains(next),
            final(stats).steps == steps_after(old(stats).steps, 1),
            final(sink).follows(old(sink)),
            frames_extend(frames0, final(sink)@, m),
            frames_up_to_date(frames0, final(sink)@, m, final(maze)@),
            final(sink)@.len() > old(sink)@.len(),
            final(sink).shows(final(maze)),
    {
        let ghost before = *old(self);
        let ghost entered = self.entered@;
        let ghost shown = maze@;
        proof {
            lemma_top(
                m,
                entrance,
                self.visited,
                self.stack@,
                self.options@,
                self.cursor@,
                entered,
            );
        }
        let top = self.stack.len() - 1;
        let current = self.stack[top];
        let k = self.cursor[top];
        proof {
            assert(m.step(before.stack@.last(), before.options@.last()[k as int]));
            m.lemma_index_in_range(next);
            m.lemma_index_in_range(current);
            m.lemma_step_markable(current, next);
            assert(!entered.contains(next));
        }
        if !speculative {
            proof {
                assert(shown.markable(current)) by {
                    reveal(cells_ok);
                    assert(shown.cell(current) == depth_cell(
                        m,
                        before.stack@,
                        entered,
                        before.tip(speculative),
                        current,
                    ));
                }
            }
            tag_and_show(
                maze,
                sink,
                current,
                CellType::FinalPath,
                if report {
                    Some(*stats)
                } else {
                    None
                },
                Ghost(m),
                Ghost(frames0),
            );
        }
        proof {
            if speculative {
                assert(before.tip(speculative) == CellType::FinalPath);
            } else {
                lemma_cells_retag(
                    m,
                    shown,
                    maze@,
                    before.stack@,
                    entered,
                    before.tip(speculative),
                    CellType::FinalPath,
                );
            }
            lemma_pass_to(
                m,
                before.stack@,
                before.options@,
                before.cursor@,
                entered,
                entered.insert(next),
            );
            lemma_pass(
                m,
                before.stack@,
                before.options@,
                before.cursor@,
                entered.insert(next),
            );
        }
        self.cursor[top] = k + 1;
        self.enter(
            next,
            maze,
            sink,
            stats,
            source,
            speculative,
            report,
            Ghost(m),
            Ghost(entrance),
            exit,
            Ghost(frames0),
        );
    }

    /// Backs out of the last cell of the stack, whose options are all
    /// tried.
    fn retreat(
        &mut self,
        maze: &mut Maze,
        sink: &mut SnapshotSink,
        stats: &PathfindingStats,
        speculative: bool,
        report: bool,
        Ghost(m): Ghost<MazeView>,
        Ghost(entrance): Ghost<Point>,
        Ghost(exit): Ghost<Point>,
        Ghost(frames0): Ghost<Seq<Frame>>,
    )
        requires
            old(maze).wf(),
            old(self).inv(m, old(maze)@, entrance, exit, speculative),
            !old(self).found,
            old(self).stack@.len() > 0,
            old(self).cursor@.len() > 0,
            old(self).options@.len() > 0,
            old(self).cursor@.last() == old(self).options@.last().len(),
            frames_extend(frames0, old(sink)@, m),
            frames_up_to_date(frames0, old(sink)@, m, old(maze)@),
            old(sink).shows(old(maze)),
        ensures
            final(sink).shows(final(maze)),
            final(sink)@.len() >= old(sink)@.len(),
            final(maze).wf(),
            final(maze).width == old(maze).width,
            final(maze).height == old(maze).height,
            final(maze).maze_type == old(maze).maze_type,
            final(self).inv(m, final(maze)@, entrance, exit, speculative),
            final(self).further_than(old(self)),
            final(self).entered@ == old(self).entered@,
            final(sink).follows(old(sink)),
            frames_extend(frames0, final(sink)@, m),
            frames_up_to_date(frames0, final(sink)@, m, final(maze)@),
    {
        let ghost before = *old(self);
        let ghost entered = self.entered@;
        let ghost shown = maze@;
        let ghost tip = before.tip(speculative);
        proof {
            lemma_top(
                m,
                entrance,
                self.visited,
                self.stack@,
                self.options@,
                self.cursor@,
                entered,
            );
            lemma_pop(m, entrance, self.stack@, self.options@, self.cursor@, entered);
            assert(before.stack@.no_duplicates()) by {
                reveal(stack_ok);
            }
        }
        let top = self.stack.len() - 1;
        let current = self.stack[top];
        self.stack.pop();
        self.options.pop();
        self.cursor.pop();
        proof {
            m.lemma_index_in_range(current);
            if before.stack@.len() >= 2 {
                m.lemma_index_in_range(before.stack@[top as int - 1]);
            }
            reveal(cells_ok);
            assert(shown.cell(current) == depth_cell(m, before.stack@, entered, tip, current));
        }
        if speculative {
            tag_and_show(
                maze,
                sink,
                current,
                CellType::Visited,
                if report {
                    Some(*stats)
                } else {
                    None
                },
                Ghost(m),
                Ghost(frames0),
            );
            proof {
                if before.stack@.len() >= 2 {
                    let parent = before.stack@[top as int - 1];
                    assert(before.stack@.contains(parent));
                    assert(shown.cell(parent)
                        == depth_cell(m, before.stack@, entered, tip, parent));
                }
            }
        } else if self.stack.len() > 0 {
            let parent = self.stack[self.stack.len() - 1];
            proof {
                assert(parent == before.stack@[top as int - 1]);
                assert(before.stack@.contains(parent));
                assert(shown.cell(parent) == depth_cell(m, before.stack@, entered, tip, parent));
            }
            tag_and_show(
                maze,
                sink,
                parent,
                CellType::Visited,
                if report {
                    Some(*stats)
                } else {
                    None
                },
                Ghost(m),
                Ghost(frames0),
            );
        }
        proof {
            lemma_cells_pop(m, shown, maze@, before.stack@, entered, tip);
            assert(self.stack@ == before.stack@.drop_last());
            assert(self.options@ == before.options@.drop_last());
            assert(self.cursor@ == before.cursor@.drop_last());
        }
    }

    /// Passes over the next option of the last cell of the stack, which
    /// was entered before.
    fn pass_over(
        &mut self,
        Ghost(m): Ghost<MazeView>,
        Ghost(now): Ghost<MazeView>,
        Ghost(entrance): Ghost<Point>,
        Ghost(exit): Ghost<Point>,
        Ghost(speculative): Ghost<bool>,
    )
        requires
            old(self).inv(m, now, entrance, exit, speculative),
            !old(self).found,
            old(self).stack@.len() > 0,
            old(self).cursor@.len() > 0,
            old(self).options@.len() > 0,
            old(self).cursor@.last() < old(self).options@.last().len(),
            old(self).visited.at(
                old(self).options@.last()[old(self).cursor@.last() as int],
            ),
        ensures
            final(self).inv(m, now, entrance, exit, speculative),
            final(self).further_than(old(self)),
            final(self).entered@ == old(self).entered@,
    {
        let ghost before = *old(self);
        proof {
            lemma_top(
                m,
                entrance,
                self.visited,
                self.stack@,
                self.options@,
                self.cursor@,
                self.entered@,
            );
            let next = before.options@.last()[before.cursor@.last() as int];
            assert(m.step(before.stack@.last(), next));
            lemma_pass(m, self.stack@, self.options@, self.cursor@, self.entered@);
        }
        let top = self.stack.len() - 1;
        let k = self.cursor[top];
        self.cursor[top] = k + 1;
    }
}

/// The neighbour lists stay in order when more cells are entered.
proof fn lemma_pass_to(
    m: MazeView,
    stack: Seq<Point>,
    options: Seq<Vec<Point>>,
    cursor: Seq<usize>,
    entered: Set<Point>,
    more: Set<Point>,
)
    requires
        options_ok(m, stack, options, cursor, entered),
        forall|p: Point| entered.contains(p) ==> more.contains(p),
    ensures
        options_ok(m, stack, options, cursor, more),
{
    reveal(options_ok);
    assert forall|i: int| 0 <= i < stack.len() implies {
        &&& (#[trigger] cursor[i]) <= options[i].len()
        &&& forall|j: int| 0 <= j < options[i].len() ==> m.step(stack[i], #[trigger] options[i][j])
        &&& forall|w: Point| #[trigger] m.step(stack[i], w) ==> options[i]@.contains(w)
        &&& forall|j: int| 0 <= j < cursor[i] ==> more.contains(#[trigger] options[i][j])
    } by {
        assert forall|j: int| 0 <= j < cursor[i] implies more.contains(
            #[trigger] options[i][j],
        ) by {
            assert(entered.contains(options[i][j]));
        }
    }
}

/// Depth-first search from the entrance of `maze` to its exit with an
/// explicit stack. `source` gives the order in which the neighbours of each
/// cell are tried. With `speculative` a cell is tagged `FinalPath` as soon
/// as it is entered; without, it is tagged `Visited` and becomes
/// `FinalPath` when the search moves on from it. Either way a cell is
/// tagged `Visited` once the search has backed out of it. Each cell that is
/// entered counts one step in `stats`, up to the largest number that fits;
/// with `report` the snapshots carry the counters.
pub fn depth_first_search<S: DirectionSource>(
    maze: &mut Maze,
    sink: &mut SnapshotSink,
    stats: &mut PathfindingStats,
    source: &mut S,
    speculative: bool,
    report: bool,
)
    requires
        searchable(old(maze)),
    ensures
        final(maze).wf(),
        final(maze).width == old(maze).width,
        final(maze).height == old(maze).height,
        final(maze).maze_type == old(maze).maze_type,
        complete_search_result(old(maze)@, final(maze)@),
        final(sink).extends(old(sink), old(maze)@),
        final(sink)@.len() > old(sink)@.len(),
        final(sink).shows(final(maze)),
        marked_cells(final(maze)@).finite(),
        final(stats).steps == steps_after(old(stats).steps, marked_cells(final(maze)@).len()),
{
    let ghost m0 = maze@;
    let entrance = maze.get_entrance().unwrap();
    let exit = maze.get_exit().unwrap();
    proof {
        m0.lemma_index_in_range(entrance);
        m0.lemma_index_in_range(exit);
    }
    assert(entrance != exit);
    assert(maze.cells.len() == maze.width * maze.height);
    proof {
        lemma_frames_extend_start(sink@, m0);
    }
    let ghost frames0 = sink@;
    let mut search = DepthSearch {
        stack: Vec::new(),
        options: Vec::new(),
        cursor: Vec::new(),
        visited: Grid::new(maze.width, maze.height, false),
        found: false,
        entered: Ghost(Set::<Point>::empty()),
    };
    proof {
        reveal(entered_ok);
        reveal(stack_ok);
        reveal(options_ok);
        reveal(settled_ok);
        reveal(cells_ok);
        lemma_marks_only_reflexive(m0);
        assert(m0.walk_between(seq![entrance], entrance, entrance));
    }
    search.enter(
        entrance,
        maze,
        sink,
        stats,
        source,
        speculative,
        report,
        Ghost(m0),
        Ghost(entrance),
        exit,
        Ghost(frames0),
    );
    while !search.found && search.stack.len() > 0
        invariant
            m0 == old(maze)@,
            searchable(old(maze)),
            m0.entrance() == Some(entrance),
            m0.exit() == Some(exit),
            maze.wf(),
            maze.width == old(maze).width,
            maze.height == old(maze).height,
            maze.maze_type == old(maze).maze_type,
            search.inv(m0, maze@, entrance, exit, speculative),
            stats.steps == steps_after(old(stats).steps, search.entered@.len()),
            search.entered@.finite(),
            sink.follows(old(sink)),
            frames_extend(frames0, sink@, m0),
            frames_up_to_date(frames0, sink@, m0, maze@),
            frames0 == old(sink)@,
            sink@.len() > old(sink)@.len(),
            sink.shows(maze),
        decreases
                (if search.found {
                    0int
                } else {
                    1int
                }),
                count_false(search.visited.cells@),
                search.stack@.len(),
                search.untried(),
    {
        proof {
            lemma_top(
                m0,
                entrance,
                search.visited,
                search.stack@,
                search.options@,
                search.cursor@,
                search.entered@,
            );
        }
        let top = search.stack.len() - 1;
        let k = search.cursor[top];
        if k < search.options[top].len() {
            let next = search.options[top][k];
            proof {
                assert(m0.step(search.stack@.last(), search.options@.last()[k as int]));
            }
            if search.visited.get(next) {
                search.pass_over(
                    Ghost(m0),
                    Ghost(maze@),
                    Ghost(entrance),
                    Ghost(exit),
                    Ghost(speculative),
                );
            } else {
                let ghost entered_before = search.entered@;
                search.advance(
                    next,
                    maze,
                    sink,
                    stats,
                    source,
                    speculative,
                    report,
                    Ghost(m0),
                    Ghost(entrance),
                    exit,
                    Ghost(frames0),
                );
                proof {
                    assert(search.entered@.len() == entered_before.len() + 1);
                }
            }
        } else {
            search.retreat(
                maze,
                sink,
                stats,
                speculative,
                report,
                Ghost(m0),
                Ghost(entrance),
                Ghost(exit),
                Ghost(frames0),
            );
        }
    }
    proof {
        if !search.found {
            assert(search.stack@ =~= Seq::<Point>::empty());
        }
        lemma_depth_search_done(
            m0,
            maze@,
            entrance,
            exit,
            search.visited,
            search.stack@,
            search.entered@,
            search.found,
            search.tip(speculative),
        );
    }
}

} // verus!
