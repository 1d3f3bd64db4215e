use vstd::prelude::*;
use super::point::Point;

verus! {

/// The neighbour offsets used by every search and carving algorithm.
pub struct Movements {}

/// Whether `(dx, dy)` is one of the four unit offsets.
pub open spec fn is_cardinal(dx: int, dy: int) -> bool {
    (dx == 0 && dy == 1) || (dx == 1 && dy == 0) || (dx == 0 && dy == -1) || (dx == -1 && dy
        == 0)
}

/// The four unit offsets in the order in which the algorithms try them:
/// down, right, up, left.
pub open spec fn unit_offsets() -> Seq<(i32, i32)> {
    seq![(0i32, 1i32), (1i32, 0i32), (0i32, -1i32), (-1i32, 0i32)]
}

/// The unit offsets doubled, used to carve corridors that leave a wall cell
/// between them.
pub open spec fn doubled_offsets() -> Seq<(i32, i32)> {
    seq![(0i32, 2i32), (2i32, 0i32), (0i32, -2i32), (-2i32, 0i32)]
}

/// Whether every offset of `dirs` is a unit offset and every unit offset
/// occurs in `dirs`.
pub open spec fn lists_unit_offsets(dirs: Seq<(i32, i32)>) -> bool {
    &&& forall|i: int| 0 <= i < dirs.len()
        ==> is_cardinal((#[trigger] dirs[i]).0 as int, dirs[i].1 as int)
    &&& forall|dx: int, dy: int| #[trigger]
        is_cardinal(dx, dy) ==> exists|i: int|
            0 <= i < dirs.len() && (#[trigger] dirs[i]).0 == dx && dirs[i].1 == dy
}

/// Whether `(dx, dy)` is one of the four doubled unit offsets.
pub open spec fn is_doubled(dx: int, dy: int) -> bool {
    (dx == 0 && dy == 2) || (dx == 2 && dy == 0) || (dx == 0 && dy == -2) || (dx == -2 && dy
        == 0)
}

/// Whether every offset of `dirs` is a doubled unit offset and every
/// doubled unit offset occurs in `dirs`.
pub open spec fn lists_doubled_offsets(dirs: Seq<(i32, i32)>) -> bool {
    &&& forall|i: int| 0 <= i < dirs.len()
        ==> is_doubled((#[trigger] dirs[i]).0 as int, dirs[i].1 as int)
    &&& forall|dx: int, dy: int| #[trigger]
        is_doubled(dx, dy) ==> exists|i: int|
            0 <= i < dirs.len() && (#[trigger] dirs[i]).0 == dx && dirs[i].1 == dy
}

/// Lists with the same entries, each as often, hold the same values.
pub proof fn lemma_same_entries<T>(a: Seq<T>, b: Seq<T>)
    requires
        a.to_multiset() == b.to_multiset(),
    ensures
        a.len() == b.len(),
        forall|d: T| a.contains(d) <==> b.contains(d),
{
    a.to_multiset_ensures();
    b.to_multiset_ensures();
    assert forall|d: T| a.contains(d) <==> b.contains(d) by {
        assert(a.contains(d) <==> a.to_multiset().count(d) > 0);
        assert(b.contains(d) <==> b.to_multiset().count(d) > 0);
    }
}

/// A list with the same entries as a list of the unit offsets is one too,
/// and likewise for the doubled offsets.
pub proof fn lemma_reordered_offsets(dirs: Seq<(i32, i32)>, base: Seq<(i32, i32)>)
    requires
        dirs.to_multiset() == base.to_multiset(),
    ensures
        lists_unit_offsets(base) ==> lists_unit_offsets(dirs),
        lists_doubled_offsets(base) ==> lists_doubled_offsets(dirs),
{
    lemma_same_entries(dirs, base);
    if lists_unit_offsets(base) {
        assert forall|i: int| 0 <= i < dirs.len() implies is_cardinal(
            (#[trigger] dirs[i]).0 as int,
            dirs[i].1 as int,
        ) by {
            assert(dirs.contains(dirs[i]));
            let j = choose|j: int| 0 <= j < base.len() && base[j] == dirs[i];
            assert(is_cardinal(base[j].0 as int, base[j].1 as int));
        }
        assert forall|dx: int, dy: int| #[trigger] is_cardinal(dx, dy) implies exists|i: int|
            0 <= i < dirs.len() && (#[trigger] dirs[i]).0 == dx && dirs[i].1 == dy by {
            let j = choose|j: int|
                0 <= j < base.len() && (#[trigger] base[j]).0 == dx && base[j].1 == dy;
            assert(base.contains(base[j]));
            let i = choose|i: int| 0 <= i < dirs.len() && dirs[i] == base[j];
            assert(dirs[i].0 == dx && dirs[i].1 == dy);
        }
    }
    if lists_doubled_offsets(base) {
        assert forall|i: int| 0 <= i < dirs.len() implies is_doubled(
            (#[trigger] dirs[i]).0 as int,
            dirs[i].1 as int,
        ) by {
            assert(dirs.contains(dirs[i]));
            let j = choose|j: int| 0 <= j < base.len() && base[j] == dirs[i];
            assert(is_doubled(base[j].0 as int, base[j].1 as int));
        }
        assert forall|dx: int, dy: int| #[trigger] is_doubled(dx, dy) implies exists|i: int|
            0 <= i < dirs.len() && (#[trigger] dirs[i]).0 == dx && dirs[i].1 == dy by {
            let j = choose|j: int|
                0 <= j < base.len() && (#[trigger] base[j]).0 == dx && base[j].1 == dy;
            assert(base.contains(base[j]));
            let i = choose|i: int| 0 <= i < dirs.len() && dirs[i] == base[j];
            assert(dirs[i].0 == dx && dirs[i].1 == dy);
        }
    }
}

/// The lists of the unit offsets and of the doubled offsets hold what
/// their names say.
pub proof fn lemma_unit_offsets_listed()
    ensures
        lists_unit_offsets(unit_offsets()),
        lists_doubled_offsets(doubled_offsets()),
{
    let doubled = doubled_offsets();
    assert forall|dx: int, dy: int| #[trigger] is_doubled(dx, dy) implies exists|i: int|
        0 <= i < doubled.len() && (#[trigger] doubled[i]).0 == dx && doubled[i].1 == dy by {
        if dx == 0 && dy == 2 {
            assert(doubled[0].0 == dx && doubled[0].1 == dy);
        } else if dx == 2 && dy == 0 {
            assert(doubled[1].0 == dx && doubled[1].1 == dy);
        } else if dx == 0 && dy == -2 {
            assert(doubled[2].0 == dx && doubled[2].1 == dy);
        } else {
            assert(doubled[3].0 == dx && doubled[3].1 == dy);
        }
    }
    let dirs = unit_offsets();
    assert forall|dx: int, dy: int| #[trigger] is_cardinal(dx, dy) implies exists|i: int|
        0 <= i < dirs.len() && (#[trigger] dirs[i]).0 == dx && dirs[i].1 == dy by {
        if dx == 0 && dy == 1 {
            assert(dirs[0].0 == dx && dirs[0].1 == dy);
        } else if dx == 1 && dy == 0 {
            assert(dirs[1].0 == dx && dirs[1].1 == dy);
        } else if dx == 0 && dy == -1 {
            assert(dirs[2].0 == dx && dirs[2].1 == dy);
        } else {
            assert(dirs[3].0 == dx && dirs[3].1 == dy);
        }
    }
}

impl Movements {
    /// The unit offsets as a list that can be reordered.
    pub fn direction_list() -> (dirs: Vec<(i32, i32)>)
        ensures
            dirs@ == unit_offsets(),
            lists_unit_offsets(dirs@),
    {
        let dirs = vec![(0, 1), (1, 0), (0, -1), (-1, 0)];
        assert(dirs@ =~= unit_offsets());
        proof {
            lemma_unit_offsets_listed();
        }
        dirs
    }

    /// The doubled offsets as a list that can be reordered.
    pub fn doubled_direction_list() -> (dirs: Vec<(i32, i32)>)
        ensures
            dirs@ == doubled_offsets(),
            lists_doubled_offsets(dirs@),
    {
        let dirs = vec![(0, 2), (2, 0), (0, -2), (-2, 0)];
        assert(dirs@ =~= doubled_offsets());
        proof {
            lemma_unit_offsets_listed();
        }
        dirs
    }

    /// The four unit offsets: down, right, up, left.
    pub fn directions() -> (dirs: [(i32, i32); 4])
        ensures
            dirs@ == unit_offsets(),
    {
        let dirs = [(0, 1), (1, 0), (0, -1), (-1, 0)];
        assert(dirs@ =~= unit_offsets());
        dirs
    }

    /// The four unit offsets doubled.
    pub fn directions_doubled() -> (dirs: [(i32, i32); 4])
        ensures
            dirs@ == doubled_offsets(),
    {
        let dirs = [(0, 2), (2, 0), (0, -2), (-2, 0)];
        assert(dirs@ =~= doubled_offsets());
        dirs
    }

    /// The offset that leads from `neighbor` back to `current`.
    pub fn calculate_direction(current: Point, neighbor: Point) -> (d: (i32, i32))
        requires
            current.x <= i32::MAX,
            current.y <= i32::MAX,
            neighbor.x <= i32::MAX,
            neighbor.y <= i32::MAX,
        ensures
            d.0 == current.x - neighbor.x,
            d.1 == current.y - neighbor.y,
    {
        (current.x as i32 - neighbor.x as i32, current.y as i32 - neighbor.y as i32)
    }

    /// The unit offset that points the other way.
    pub fn get_opposite_direction(x: i32, y: i32) -> (d: (i32, i32))
        requires
            is_cardinal(x as int, y as int),
        ensures
            d.0 == -x,
            d.1 == -y,
    {
        (-x, -y)
    }
}

} // verus!
