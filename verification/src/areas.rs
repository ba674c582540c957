//! Computing the areas of the free cells of an index.

use vstd::prelude::*;
use pathfinding::undirected::connected_components::connected_components;
use crate::components::{parts_of, ConnectedComponents};
use crate::grid::Grid;
use crate::index_model::{is_free, IndexView};
use crate::location::{
    lemma_at_index,
    lemma_cell_index,
    GridLocation,
    GRID_CELLS,
    GRID_SIZE_X,
    GRID_SIZE_Y,
};
use crate::reachability::{
    adjacent,
    free_path,
    free_toward,
    in_some_part,
    is_free_partition,
    lemma_neighbors,
    lemma_reachable_self,
    lemma_reachable_step,
    lemma_reachable_trans,
    neighbors,
    part_has,
    parts_disjoint,
    reachable,
    step_at,
};

verus! {

/// Every cell of the grid, column by column.
pub open spec fn all_cells() -> Seq<GridLocation> {
    Seq::new(GRID_CELLS as nat, |i: int| GridLocation::at_index(i))
}

/// Every cell of the grid, column by column.
pub fn all_points() -> (r: Vec<GridLocation>)
    ensures
        r@ == all_cells(),
{
    let mut out: Vec<GridLocation> = Vec::new();
    let mut x: usize = 0;
    while x < GRID_SIZE_X
        invariant
            x <= GRID_SIZE_X,
            out@.len() == x * GRID_SIZE_Y,
            forall|i: int| 0 <= i < out@.len() ==> out@[i] == GridLocation::at_index(i),
        decreases GRID_SIZE_X - x,
    {
        let mut y: usize = 0;
        while y < GRID_SIZE_Y
            invariant
                x < GRID_SIZE_X,
                y <= GRID_SIZE_Y,
                out@.len() == x * GRID_SIZE_Y + y,
                forall|i: int| 0 <= i < out@.len() ==> out@[i] == GridLocation::at_index(i),
            decreases GRID_SIZE_Y - y,
        {
            let p = GridLocation::new(x as u32, y as u32);
            assert(p == GridLocation::at_index(x * GRID_SIZE_Y + y));
            out.push(p);
            y += 1;
        }
        x += 1;
    }
    assert(out@ =~= all_cells());
    out
}

/// The cell `dx` columns and `dy` rows away from `location`, if it is on the
/// grid and free.
fn free_neighbor<T>(grid: &Grid<T>, location: &GridLocation, dx: i64, dy: i64) -> (r: Option<
    GridLocation,
>)
    requires
        grid.wf(),
        -1 <= dx <= 1,
        -1 <= dy <= 1,
    ensures
        match r {
            Some(q) => free_toward(grid@, *location, dx as int, dy as int) == seq![q],
            None => free_toward(grid@, *location, dx as int, dy as int) == Seq::<
                GridLocation,
            >::empty(),
        },
{
    let x: i64 = location.x as i64 + dx;
    let y: i64 = location.y as i64 + dy;
    if 0 <= x && x < GRID_SIZE_X as i64 && 0 <= y && y < GRID_SIZE_Y as i64 {
        let q = GridLocation { x: x as i32, y: y as i32 };
        if !grid.occupied(&q) {
            return Some(q);
        }
    }
    None
}

/// The free cells that share a side with `location`: the one to the left,
/// the one below, the one to the right and the one above, in that order.
pub fn neumann_neighbors<T>(grid: &Grid<T>, location: &GridLocation) -> (successors: Vec<
    GridLocation,
>)
    requires
        grid.wf(),
    ensures
        successors@ == neighbors(grid@, *location),
{
    let mut successors: Vec<GridLocation> = Vec::new();
    if let Some(left) = free_neighbor(grid, location, -1, 0) {
        successors.push(left);
    }
    assert(successors@ =~= free_toward(grid@, *location, -1, 0));
    if let Some(down) = free_neighbor(grid, location, 0, -1) {
        successors.push(down);
    }
    assert(successors@ =~= free_toward(grid@, *location, -1, 0) + free_toward(
        grid@,
        *location,
        0,
        -1,
    ));
    if let Some(right) = free_neighbor(grid, location, 1, 0) {
        successors.push(right);
    }
    assert(successors@ =~= free_toward(grid@, *location, -1, 0) + free_toward(
        grid@,
        *location,
        0,
        -1,
    ) + free_toward(grid@, *location, 1, 0));
    if let Some(up) = free_neighbor(grid, location, 0, 1) {
        successors.push(up);
    }
    assert(successors@ =~= neighbors(grid@, *location));
    successors
}

/// Whether `starts` lists the free cells of `m`, each once, column by column.
pub open spec fn lists_free_cells(starts: Seq<GridLocation>, m: IndexView) -> bool {
    &&& forall|p: GridLocation| starts.contains(p) <==> is_free(m, p)
    &&& forall|i: int, j: int|
        0 <= i < j < starts.len() ==> (#[trigger] starts[i]).cell_index() < (
        #[trigger] starts[j]).cell_index()
}

/// The free cells of the index, column by column.
pub fn free_points<T>(grid: &Grid<T>) -> (starts: Vec<GridLocation>)
    requires
        grid.wf(),
    ensures
        lists_free_cells(starts@, grid@),
{
    let points = all_points();
    let mut starts: Vec<GridLocation> = Vec::new();
    let mut i: usize = 0;
    while i < points.len()
        invariant
            i <= points.len(),
            points@ == all_cells(),
            grid.wf(),
            forall|k: int| 0 <= k < starts.len() ==> is_free(grid@, #[trigger] starts[k]),
            forall|k: int| 0 <= k < starts.len() ==> (#[trigger] starts[k]).cell_index() < i,
            forall|k: int|
                0 <= k < i && is_free(grid@, #[trigger] GridLocation::at_index(k))
                    ==> starts@.contains(GridLocation::at_index(k)),
            forall|a: int, b: int|
                0 <= a < b < starts.len() ==> (#[trigger] starts[a]).cell_index() < (
                #[trigger] starts[b]).cell_index(),
        decreases points.len() - i,
    {
        let p = points[i];
        proof {
            lemma_cell_index(i as int);
        }
        if !grid.occupied(&p) {
            let ghost before = starts@;
            starts.push(p);
            proof {
                assert(starts@[before.len() as int] == p);
                assert forall|k: int|
                    0 <= k < i + 1 && is_free(
                        grid@,
                        #[trigger] GridLocation::at_index(k),
                    ) implies starts@.contains(GridLocation::at_index(k)) by {
                    if k < i {
                        let w = choose|w: int|
                            0 <= w < before.len() && before[w] == GridLocation::at_index(k);
                        assert(starts@[w] == GridLocation::at_index(k));
                    }
                }
            }
        }
        i += 1;
    }
    proof {
        assert forall|p: GridLocation| is_free(grid@, p) implies starts@.contains(p) by {
            lemma_at_index(p);
            assert(is_free(grid@, GridLocation::at_index(p.cell_index())));
        }
    }
    starts
}

/// The group of the start at position `i`: its free neighbours, then the
/// start itself.
pub open spec fn group(m: IndexView, starts: Seq<GridLocation>, i: int) -> Seq<GridLocation> {
    neighbors(m, starts[i]).push(starts[i])
}

/// Whether `p` is in the group of the start at position `i`.
pub open spec fn in_group(
    m: IndexView,
    starts: Seq<GridLocation>,
    i: int,
    p: GridLocation,
) -> bool {
    0 <= i < starts.len() && group(m, starts, i).contains(p)
}

/// Whether `p` is in one of the groups.
pub open spec fn in_some_group(m: IndexView, starts: Seq<GridLocation>, p: GridLocation) -> bool {
    exists|g: int| in_group(m, starts, g, p)
}

/// Whether some group holds both `a` and `b`.
pub open spec fn share_group(
    m: IndexView,
    starts: Seq<GridLocation>,
    a: GridLocation,
    b: GridLocation,
) -> bool {
    exists|i: int| in_group(m, starts, i, a) && in_group(m, starts, i, b)
}

/// Whether some group holds both `chain[k]` and `chain[k + 1]`.
pub open spec fn link_at(
    m: IndexView,
    starts: Seq<GridLocation>,
    chain: Seq<GridLocation>,
    k: int,
) -> bool {
    share_group(m, starts, chain[k], chain[k + 1])
}

/// Whether each cell of `chain` shares a group with the next.
pub open spec fn group_chain(
    m: IndexView,
    starts: Seq<GridLocation>,
    chain: Seq<GridLocation>,
) -> bool {
    &&& chain.len() > 0
    &&& forall|k: int| 0 <= k < chain.len() - 1 ==> #[trigger] link_at(m, starts, chain, k)
}

/// Whether a chain of cells, each sharing a group with the next, leads from
/// `a` to `b`.
pub open spec fn joined(
    m: IndexView,
    starts: Seq<GridLocation>,
    a: GridLocation,
    b: GridLocation,
) -> bool {
    exists|chain: Seq<GridLocation>|
        group_chain(m, starts, chain) && chain[0] == a && chain.last() == b
}

/// Whether `parts` split the cells of the groups of `starts` into the sets
/// that the groups connect: the parts are disjoint, they hold the cells of
/// the groups and nothing else, and two cells are in one part exactly when a
/// chain of groups joins them.
pub open spec fn splits_groups(
    parts: Seq<Seq<GridLocation>>,
    m: IndexView,
    starts: Seq<GridLocation>,
) -> bool {
    &&& parts_disjoint(parts)
    &&& forall|p: GridLocation| #[trigger] in_some_part(parts, p) <==> in_some_group(m, starts, p)
    &&& forall|i: int, j: int, a: GridLocation, b: GridLocation|
        #[trigger] part_has(parts, i, a) && #[trigger] part_has(parts, j, b) ==> (i == j
            <==> joined(m, starts, a, b))
}

/// Calls `pathfinding::undirected::connected_components::connected_components`
/// with `starts` and, as the neighbours of a cell, its free neighbours in
/// `grid`; each set that comes back is turned into a list.
///
/// Not proved here, but taken from that function: it forms one group per
/// start, of the neighbours and the start, merges the groups that have a
/// cell in common, and returns the merged groups as sets. So no list is
/// empty or holds a cell twice, no cell is in two lists, the lists hold the
/// cells of the groups and no others, and two cells are in one list exactly
/// when a chain of groups joins them. Nothing is claimed of the order of the
/// lists or of the cells of a list.
#[verifier::external_body]
fn connected_sets<T>(grid: &Grid<T>, starts: &Vec<GridLocation>) -> (sets: Vec<Vec<GridLocation>>)
    requires
        grid.wf(),
    ensures
        splits_groups(parts_of(sets@), grid@, starts@),
{
    connected_components(starts, |p| neumann_neighbors(grid, p))
        .into_iter()
        .map(|set| set.into_iter().collect())
        .collect()
}

/// Every cell of a group of the free cells is free.
proof fn lemma_group_free(m: IndexView, starts: Seq<GridLocation>, g: int, p: GridLocation)
    requires
        lists_free_cells(starts, m),
        in_group(m, starts, g, p),
    ensures
        is_free(m, p),
        is_free(m, starts[g]),
        p == starts[g] || adjacent(starts[g], p),
{
    let n = neighbors(m, starts[g]);
    let grp = group(m, starts, g);
    assert(starts.contains(starts[g]));
    let k = choose|k: int| 0 <= k < grp.len() && grp[k] == p;
    if k < n.len() {
        assert(n[k] == p);
        lemma_neighbors(m, starts[g], p);
    }
}

/// Two free cells that share a group reach one another.
proof fn lemma_link_reachable(
    m: IndexView,
    starts: Seq<GridLocation>,
    a: GridLocation,
    b: GridLocation,
)
    requires
        lists_free_cells(starts, m),
        share_group(m, starts, a, b),
    ensures
        reachable(m, a, b),
{
    let g = choose|g: int| in_group(m, starts, g, a) && in_group(m, starts, g, b);
    let s = starts[g];
    lemma_group_free(m, starts, g, a);
    lemma_group_free(m, starts, g, b);
    if a == s {
        lemma_reachable_self(m, a);
    } else {
        lemma_reachable_step(m, a, s);
    }
    if b == s {
        lemma_reachable_self(m, b);
    } else {
        lemma_reachable_step(m, s, b);
    }
    lemma_reachable_trans(m, a, s, b);
}

/// A chain of groups of the free cells that starts at a free cell is
/// matched by a walk over free cells.
proof fn lemma_chain_reachable(m: IndexView, starts: Seq<GridLocation>, chain: Seq<GridLocation>)
    requires
        lists_free_cells(starts, m),
        group_chain(m, starts, chain),
        is_free(m, chain[0]),
    ensures
        reachable(m, chain[0], chain.last()),
    decreases chain.len(),
{
    if chain.len() == 1 {
        lemma_reachable_self(m, chain[0]);
    } else {
        let rest = chain.drop_last();
        assert forall|k: int| 0 <= k < rest.len() - 1 implies #[trigger] link_at(
            m,
            starts,
            rest,
            k,
        ) by {
            assert(link_at(m, starts, chain, k));
        }
        lemma_chain_reachable(m, starts, rest);
        assert(link_at(m, starts, chain, chain.len() - 2));
        assert(rest.last() == chain[chain.len() - 2]);
        lemma_link_reachable(m, starts, rest.last(), chain.last());
        lemma_reachable_trans(m, chain[0], rest.last(), chain.last());
    }
}

/// A walk over free cells is a chain of groups of the free cells.
proof fn lemma_path_is_chain(m: IndexView, starts: Seq<GridLocation>, path: Seq<GridLocation>)
    requires
        lists_free_cells(starts, m),
        free_path(m, path),
    ensures
        group_chain(m, starts, path),
{
    assert forall|k: int| 0 <= k < path.len() - 1 implies #[trigger] link_at(
        m,
        starts,
        path,
        k,
    ) by {
        let a = path[k];
        let b = path[k + 1];
        assert(step_at(path, k));
        assert(is_free(m, a) && is_free(m, b));
        assert(starts.contains(a));
        let g = choose|g: int| 0 <= g < starts.len() && starts[g] == a;
        let grp = group(m, starts, g);
        let n = neighbors(m, a);
        lemma_neighbors(m, a, b);
        let w = choose|w: int| 0 <= w < n.len() && n[w] == b;
        assert(grp[w] == b);
        assert(grp[n.len() as int] == a);
        assert(in_group(m, starts, g, a) && in_group(m, starts, g, b));
    }
}

/// The sets into which the groups of the free cells merge are the areas of
/// the free cells.
proof fn lemma_groups_are_areas(
    parts: Seq<Seq<GridLocation>>,
    m: IndexView,
    starts: Seq<GridLocation>,
)
    requires
        lists_free_cells(starts, m),
        splits_groups(parts, m, starts),
    ensures
        is_free_partition(parts, m),
{
    assert forall|p: GridLocation| #[trigger] in_some_part(parts, p) <==> is_free(m, p) by {
        if in_some_group(m, starts, p) {
            let g = choose|g: int| in_group(m, starts, g, p);
            lemma_group_free(m, starts, g, p);
        }
        if is_free(m, p) {
            assert(starts.contains(p));
            let g = choose|g: int| 0 <= g < starts.len() && starts[g] == p;
            assert(group(m, starts, g)[neighbors(m, p).len() as int] == p);
            assert(in_group(m, starts, g, p));
        }
    }
    assert forall|i: int, j: int, a: GridLocation, b: GridLocation| #[trigger]
        part_has(parts, i, a) && #[trigger] part_has(parts, j, b) implies (i == j <==> reachable(
        m,
        a,
        b,
    )) by {
        assert(in_some_part(parts, a));
        assert(is_free(m, a));
        if joined(m, starts, a, b) {
            let chain = choose|chain: Seq<GridLocation>|
                group_chain(m, starts, chain) && chain[0] == a && chain.last() == b;
            lemma_chain_reachable(m, starts, chain);
        }
        if reachable(m, a, b) {
            let path = choose|path: Seq<GridLocation>|
                free_path(m, path) && path[0] == a && path.last() == b;
            lemma_path_is_chain(m, starts, path);
            assert(joined(m, starts, a, b));
        }
    }
}

/// The areas of the free cells of `grid`: the free cells split into parts,
/// so that two free cells are in one part exactly when a walk over free
/// cells, from each cell to one that shares a side with it, leads from one
/// to the other. The order of the parts, and of the cells of a part, is not
/// fixed.
pub fn compute_components<T>(grid: &Grid<T>) -> (r: ConnectedComponents<T>)
    requires
        grid.wf(),
    ensures
        is_free_partition(r@, grid@),
{
    let starts = free_points(grid);
    let sets = connected_sets(grid, &starts);
    proof {
        lemma_groups_are_areas(parts_of(sets@), grid@, starts@);
    }
    ConnectedComponents::new(sets)
}

} // verus!
