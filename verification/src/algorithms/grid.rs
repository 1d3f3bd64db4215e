use vstd::prelude::*;
use super::point::Point;

verus! {

/// One value for each cell of a rectangle, in row-major order. The searches
/// keep their per-cell bookkeeping in grids.
pub struct Grid<T> {
    pub width: usize,
    pub height: usize,
    pub cells: Vec<T>,
}

impl<T: Copy> Grid<T> {
    /// The grid holds one value for each cell.
    pub open spec fn wf(&self) -> bool {
        self.cells.len() == self.width * self.height
    }

    /// Whether `p` names a cell of the grid.
    pub open spec fn in_bounds(&self, p: Point) -> bool {
        p.x < self.width && p.y < self.height
    }

    /// The value kept for `p`.
    pub open spec fn at(&self, p: Point) -> T {
        self.cells[p.y * self.width + p.x]
    }

    /// The row-major position of a cell of the grid lies in the grid.
    pub proof fn lemma_index(&self, p: Point)
        requires
            self.wf(),
            self.in_bounds(p),
        ensures
            0 <= p.y * self.width + p.x < self.cells.len(),
            0 <= p.y * self.width <= usize::MAX,
    {
        let w = self.width as int;
        let h = self.height as int;
        let x = p.x as int;
        let y = p.y as int;
        assert(0 <= y * w <= y * w + x < w * h) by (nonlinear_arith)
            requires
                0 <= x < w,
                0 <= y < h,
        ;
    }

    /// Different cells have different row-major positions.
    pub proof fn lemma_index_injective(&self, p: Point, q: Point)
        requires
            self.in_bounds(p),
            self.in_bounds(q),
            p != q,
        ensures
            p.y * self.width + p.x != q.y * self.width + q.x,
    {
        let w = self.width as int;
        let (px, py, qx, qy) = (p.x as int, p.y as int, q.x as int, q.y as int);
        assert(py * w + px == qy * w + qx ==> py == qy && px == qx) by (nonlinear_arith)
            requires
                0 <= px < w,
                0 <= qx < w,
                0 <= py,
                0 <= qy,
        ;
    }

    /// A grid that holds `fill` for every cell.
    pub fn new(width: usize, height: usize, fill: T) -> (grid: Self)
        requires
            width * height <= usize::MAX,
        ensures
            grid.wf(),
            grid.width == width,
            grid.height == height,
            forall|i: int| 0 <= i < grid.cells.len() ==> #[trigger] grid.cells[i] == fill,
            forall|p: Point| grid.in_bounds(p) ==> #[trigger] grid.at(p) == fill,
    {
        let count = width * height;
        let mut cells: Vec<T> = Vec::new();
        let mut i: usize = 0;
        while i < count
            invariant
                i <= count,
                cells.len() == i,
                forall|j: int| 0 <= j < i ==> #[trigger] cells[j] == fill,
            decreases count - i,
        {
            cells.push(fill);
            i += 1;
        }
        let grid = Grid { width, height, cells };
        assert forall|p: Point| grid.in_bounds(p) implies #[trigger] grid.at(p) == fill by {
            grid.lemma_index(p);
        }
        grid
    }

    /// The value kept for `p`.
    pub fn get(&self, p: Point) -> (value: T)
        requires
            self.wf(),
            self.in_bounds(p),
        ensures
            value == self.at(p),
    {
        proof {
            self.lemma_index(p);
        }
        self.cells[p.y * self.width + p.x]
    }

    /// Replaces the value kept for `p` and no other.
    pub fn set(&mut self, p: Point, value: T)
        requires
            old(self).wf(),
            old(self).in_bounds(p),
        ensures
            final(self).wf(),
            final(self).width == old(self).width,
            final(self).height == old(self).height,
            final(self).cells@ == old(self).cells@.update(p.y * old(self).width + p.x, value),
            final(self).at(p) == value,
            forall|q: Point|
                old(self).in_bounds(q) && q != p ==> #[trigger] final(self).at(q) == old(self).at(
                    q,
                ),
    {
        proof {
            self.lemma_index(p);
        }
        let index = p.y * self.width + p.x;
        self.cells[index] = value;
        proof {
            assert forall|q: Point| old(self).in_bounds(q) && q != p implies #[trigger] self.at(q)
                == old(self).at(q) by {
                old(self).lemma_index(q);
                old(self).lemma_index_injective(p, q);
            }
        }
    }
}

/// How many entries of `s` are `false`.
pub open spec fn count_false(s: Seq<bool>) -> nat
    decreases s.len(),
{
    if s.len() == 0 {
        0
    } else {
        count_false(s.drop_last()) + if s.last() {
            0nat
        } else {
            1nat
        }
    }
}

/// Turning one `false` entry into `true` lowers the count by one.
pub proof fn lemma_count_false_update(s: Seq<bool>, i: int)
    requires
        0 <= i < s.len(),
        !s[i],
    ensures
        count_false(s.update(i, true)) + 1 == count_false(s),
    decreases s.len(),
{
    let t = s.update(i, true);
    if i == s.len() - 1 {
        assert(t.drop_last() =~= s.drop_last());
    } else {
        assert(t.drop_last() =~= s.drop_last().update(i, true));
        lemma_count_false_update(s.drop_last(), i);
    }
}

/// No entry is counted exactly where every entry is `true`.
pub proof fn lemma_count_false_none(s: Seq<bool>)
    ensures
        count_false(s) == 0 <==> forall|i: int| 0 <= i < s.len() ==> #[trigger] s[i],
    decreases s.len(),
{
    if s.len() > 0 {
        let front = s.drop_last();
        lemma_count_false_none(front);
        if count_false(s) == 0 {
            assert forall|i: int| 0 <= i < s.len() implies #[trigger] s[i] by {
                if i < s.len() - 1 {
                    assert(front[i]);
                }
            }
        }
        if forall|i: int| 0 <= i < s.len() ==> #[trigger] s[i] {
            assert forall|i: int| 0 <= i < front.len() implies #[trigger] front[i] by {
                assert(s[i]);
            }
            assert(s[s.len() - 1]);
        }
    }
}

/// The sum of the entries of `s`.
pub open spec fn total(s: Seq<usize>) -> nat
    decreases s.len(),
{
    if s.len() == 0 {
        0
    } else {
        total(s.drop_last()) + s.last() as nat
    }
}

/// Lowering one entry lowers the sum by as much.
pub proof fn lemma_total_update(s: Seq<usize>, i: int, value: usize)
    requires
        0 <= i < s.len(),
        value <= s[i],
    ensures
        total(s.update(i, value)) + (s[i] - value) == total(s),
    decreases s.len(),
{
    let t = s.update(i, value);
    if i == s.len() - 1 {
        assert(t.drop_last() =~= s.drop_last());
    } else {
        assert(t.drop_last() =~= s.drop_last().update(i, value));
        lemma_total_update(s.drop_last(), i, value);
    }
}

} // verus!
