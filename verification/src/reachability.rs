//! Which free cells can reach one another: steps between cells that share a
//! side, paths of free cells, and what it means to split the free cells into
//! the areas that such paths connect.

use vstd::prelude::*;
use crate::index_model::{is_free, IndexView};
use crate::location::{coords_in_bounds, GridLocation};

verus! {

/// Whether two cells share a side.
pub open spec fn adjacent(a: GridLocation, b: GridLocation) -> bool {
    ||| a.x == b.x && (a.y - b.y == 1 || b.y - a.y == 1)
    ||| a.y == b.y && (a.x - b.x == 1 || b.x - a.x == 1)
}

/// The location `dx` columns and `dy` rows away from `p`.
pub open spec fn toward(p: GridLocation, dx: int, dy: int) -> GridLocation {
    GridLocation { x: (p.x + dx) as i32, y: (p.y + dy) as i32 }
}

/// The cell `dx` columns and `dy` rows away from `p`, if it is on the grid
/// and free.
pub open spec fn free_toward(m: IndexView, p: GridLocation, dx: int, dy: int) -> Seq<
    GridLocation,
> {
    if coords_in_bounds(p.x + dx, p.y + dy) && !m.dom().contains(toward(p, dx, dy)) {
        seq![toward(p, dx, dy)]
    } else {
        Seq::empty()
    }
}

/// The free cells that share a side with `p`: the one to the left, the one
/// below, the one to the right and the one above, in that order.
pub open spec fn neighbors(m: IndexView, p: GridLocation) -> Seq<GridLocation> {
    free_toward(m, p, -1, 0) + free_toward(m, p, 0, -1) + free_toward(m, p, 1, 0) + free_toward(
        m,
        p,
        0,
        1,
    )
}

/// Whether `path[k]` and `path[k + 1]` share a side.
pub open spec fn step_at(path: Seq<GridLocation>, k: int) -> bool {
    adjacent(path[k], path[k + 1])
}

/// Whether `path` is a walk over free cells in which each cell shares a side
/// with the next.
pub open spec fn free_path(m: IndexView, path: Seq<GridLocation>) -> bool {
    &&& path.len() > 0
    &&& forall|k: int| 0 <= k < path.len() ==> is_free(m, #[trigger] path[k])
    &&& forall|k: int| 0 <= k < path.len() - 1 ==> #[trigger] step_at(path, k)
}

/// Whether a walk over free cells leads from `a` to `b`.
pub open spec fn reachable(m: IndexView, a: GridLocation, b: GridLocation) -> bool {
    exists|path: Seq<GridLocation>| free_path(m, path) && path[0] == a && path.last() == b
}

/// Whether `p` is in the part at position `i`.
pub open spec fn part_has(parts: Seq<Seq<GridLocation>>, i: int, p: GridLocation) -> bool {
    0 <= i < parts.len() && parts[i].contains(p)
}

/// Whether `p` is in one of the parts.
pub open spec fn in_some_part(parts: Seq<Seq<GridLocation>>, p: GridLocation) -> bool {
    exists|i: int| part_has(parts, i, p)
}

/// Whether no part is empty, no part holds a cell twice, and no cell is in
/// two parts.
pub open spec fn parts_disjoint(parts: Seq<Seq<GridLocation>>) -> bool {
    &&& forall|i: int|
        0 <= i < parts.len() ==> (#[trigger] parts[i]).len() > 0 && parts[i].no_duplicates()
    &&& forall|i: int, j: int, p: GridLocation|
        #[trigger] part_has(parts, i, p) && #[trigger] part_has(parts, j, p) ==> i == j
}

/// Whether `parts` are the areas of the free cells of `m`: the parts are
/// disjoint, they hold the free cells and nothing else, and two cells are in
/// one part exactly when a walk over free cells leads from one to the other.
pub open spec fn is_free_partition(parts: Seq<Seq<GridLocation>>, m: IndexView) -> bool {
    &&& parts_disjoint(parts)
    &&& forall|p: GridLocation| #[trigger] in_some_part(parts, p) <==> is_free(m, p)
    &&& forall|i: int, j: int, a: GridLocation, b: GridLocation|
        #[trigger] part_has(parts, i, a) && #[trigger] part_has(parts, j, b) ==> (i == j
            <==> reachable(m, a, b))
}

/// The free neighbours of `p` are the free cells that share a side with it.
pub proof fn lemma_neighbors(m: IndexView, p: GridLocation, q: GridLocation)
    ensures
        neighbors(m, p).contains(q) <==> is_free(m, q) && adjacent(p, q),
{
    let a = free_toward(m, p, -1, 0);
    let b = free_toward(m, p, 0, -1);
    let c = free_toward(m, p, 1, 0);
    let d = free_toward(m, p, 0, 1);
    let n = neighbors(m, p);
    if n.contains(q) {
        let i = choose|i: int| 0 <= i < n.len() && n[i] == q;
        if i < a.len() {
            assert(n[i] == a[i]);
        } else if i < a.len() + b.len() {
            assert(n[i] == b[i - a.len()]);
        } else if i < a.len() + b.len() + c.len() {
            assert(n[i] == c[i - a.len() - b.len()]);
        } else {
            assert(n[i] == d[i - a.len() - b.len() - c.len()]);
        }
    }
    if is_free(m, q) && adjacent(p, q) {
        if q.x == p.x - 1 {
            assert(a[0] == q);
            assert(n[0] == q);
        } else if q.y == p.y - 1 {
            assert(b[0] == q);
            assert(n[a.len() as int] == q);
        } else if q.x == p.x + 1 {
            assert(c[0] == q);
            assert(n[(a.len() + b.len()) as int] == q);
        } else {
            assert(d[0] == q);
            assert(n[(a.len() + b.len() + c.len()) as int] == q);
        }
    }
}

/// A free cell reaches itself.
pub proof fn lemma_reachable_self(m: IndexView, a: GridLocation)
    requires
        is_free(m, a),
    ensures
        reachable(m, a, a),
{
    let path = seq![a];
    assert(free_path(m, path));
    assert(path[0] == a && path.last() == a);
}

/// A free cell reaches a free cell with which it shares a side.
pub proof fn lemma_reachable_step(m: IndexView, a: GridLocation, b: GridLocation)
    requires
        is_free(m, a),
        is_free(m, b),
        adjacent(a, b),
    ensures
        reachable(m, a, b),
{
    let path = seq![a, b];
    assert(step_at(path, 0));
    assert(free_path(m, path));
    assert(path[0] == a && path.last() == b);
}

/// Walks can be joined end to end.
pub proof fn lemma_reachable_trans(m: IndexView, a: GridLocation, b: GridLocation, c: GridLocation)
    requires
        reachable(m, a, b),
        reachable(m, b, c),
    ensures
        reachable(m, a, c),
{
    let p1 = choose|path: Seq<GridLocation>| free_path(m, path) && path[0] == a && path.last() == b;
    let p2 = choose|path: Seq<GridLocation>| free_path(m, path) && path[0] == b && path.last() == c;
    let tail = p2.subrange(1, p2.len() as int);
    let path = p1 + tail;
    assert forall|k: int| 0 <= k < path.len() implies is_free(m, #[trigger] path[k]) by {
        if k >= p1.len() {
            assert(path[k] == p2[k - p1.len() + 1]);
        }
    }
    assert forall|k: int| 0 <= k < path.len() - 1 implies #[trigger] step_at(path, k) by {
        if k < p1.len() - 1 {
            assert(step_at(p1, k));
        } else {
            let k2 = k - p1.len() + 1;
            assert(step_at(p2, k2));
            assert(path[k + 1] == p2[k2 + 1]);
            if k2 == 0 {
                assert(path[k] == p1.last());
            } else {
                assert(path[k] == p2[k2]);
            }
        }
    }
    assert(free_path(m, path));
    assert(path[0] == a);
    if tail.len() == 0 {
        assert(path.last() == b);
        assert(b == c);
    } else {
        assert(path.last() == p2.last());
    }
}

/// The ends of a walk are free.
pub proof fn lemma_reachable_free(m: IndexView, a: GridLocation, b: GridLocation)
    requires
        reachable(m, a, b),
    ensures
        is_free(m, a),
        is_free(m, b),
{
    let p = choose|path: Seq<GridLocation>| free_path(m, path) && path[0] == a && path.last() == b;
    assert(is_free(m, p[0]));
    assert(is_free(m, p[p.len() - 1]));
}

/// In the areas of the free cells, two free cells that share a side are in
/// the same part. So a cell that has just become free belongs to the area of
/// each of its free neighbours.
pub proof fn lemma_free_neighbors_share_part(
    parts: Seq<Seq<GridLocation>>,
    m: IndexView,
    a: GridLocation,
    b: GridLocation,
)
    requires
        is_free_partition(parts, m),
        is_free(m, a),
        is_free(m, b),
        adjacent(a, b),
    ensures
        exists|i: int| part_has(parts, i, a) && part_has(parts, i, b),
{
    lemma_reachable_step(m, a, b);
    assert(in_some_part(parts, a) && in_some_part(parts, b));
    let i = choose|i: int| part_has(parts, i, a);
    let j = choose|j: int| part_has(parts, j, b);
    assert(part_has(parts, i, a) && part_has(parts, j, b));
    assert(i == j);
}

/// In the areas of the free cells, the part that holds `p` is the set of the
/// cells that `p` reaches. So the areas are fixed by the index, up to the
/// order of the parts and of the cells of a part.
pub proof fn lemma_part_is_reach_set(
    parts: Seq<Seq<GridLocation>>,
    m: IndexView,
    i: int,
    p: GridLocation,
)
    requires
        is_free_partition(parts, m),
        part_has(parts, i, p),
    ensures
        parts[i].to_set() == Set::new(|q: GridLocation| reachable(m, p, q)),
{
    let reach = Set::new(|q: GridLocation| reachable(m, p, q));
    assert forall|q: GridLocation| parts[i].to_set().contains(q) <==> reach.contains(q) by {
        if parts[i].contains(q) {
            assert(part_has(parts, i, q));
        }
        if reachable(m, p, q) {
            lemma_reachable_free(m, p, q);
            assert(in_some_part(parts, q));
            let j = choose|j: int| part_has(parts, j, q);
            assert(part_has(parts, i, p) && part_has(parts, j, q));
        }
    }
    assert(parts[i].to_set() =~= reach);
}

} // verus!
