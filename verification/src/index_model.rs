//! The mathematical model of a grid index: a map from the occupied cells to
//! their occupants.

use vstd::prelude::*;
use crate::location::{lemma_at_index, lemma_cell_index, GridLocation, GRID_CELLS};

verus! {

/// A handle that names one entity. Two handles name the same entity exactly
/// when their bits are equal.
#[derive(Clone, Copy, PartialEq, Eq, Structural, Debug, Hash)]
pub struct Entity(pub u64);

/// What an index holds: each occupied cell with its occupants, in the order
/// in which they arrived. A cell that is not in the domain is free.
pub type IndexView = Map<GridLocation, Seq<Entity>>;

/// Whether `e` stands in the cell at `loc`.
pub open spec fn holds(m: IndexView, loc: GridLocation, e: Entity) -> bool {
    m.dom().contains(loc) && m[loc].contains(e)
}

/// Whether `e` stands in some cell.
pub open spec fn tracks(m: IndexView, e: Entity) -> bool {
    exists|loc: GridLocation| holds(m, loc, e)
}

/// Whether the cell at `loc` is on the grid and has no occupant.
pub open spec fn is_free(m: IndexView, loc: GridLocation) -> bool {
    loc.in_bounds() && !m.dom().contains(loc)
}

/// Every occupied cell is on the grid.
pub open spec fn all_in_bounds(m: IndexView) -> bool {
    forall|loc: GridLocation| #[trigger] m.dom().contains(loc) ==> loc.in_bounds()
}

/// No occupied cell has an empty list of occupants.
pub open spec fn no_empty_cell(m: IndexView) -> bool {
    forall|loc: GridLocation| #[trigger] m.dom().contains(loc) ==> m[loc].len() > 0
}

/// An entity stands in at most one cell, and at most once in it.
pub open spec fn each_entity_once(m: IndexView) -> bool {
    &&& forall|loc: GridLocation| #[trigger] m.dom().contains(loc) ==> m[loc].no_duplicates()
    &&& forall|loc1: GridLocation, loc2: GridLocation, e: Entity|
        #[trigger] holds(m, loc1, e) && #[trigger] holds(m, loc2, e) ==> loc1 == loc2
}

/// The invariant of an index.
pub open spec fn index_wf(m: IndexView) -> bool {
    &&& all_in_bounds(m)
    &&& no_empty_cell(m)
    &&& each_entity_once(m)
}

/// The occupants `s` of a cell once `e` has left it.
pub open spec fn seq_without(s: Seq<Entity>, e: Entity) -> Seq<Entity> {
    if s.contains(e) {
        s.remove(s.index_of(e))
    } else {
        s
    }
}

/// The index once `e` has left: `e` is gone from every cell, and a cell that
/// this empties becomes free.
pub open spec fn without(m: IndexView, e: Entity) -> IndexView {
    Map::new(
        |loc: GridLocation| m.dom().contains(loc) && seq_without(m[loc], e).len() > 0,
        |loc: GridLocation| seq_without(m[loc], e),
    )
}

/// The occupants of the cell at `loc`; none where it is free.
pub open spec fn occupants(m: IndexView, loc: GridLocation) -> Seq<Entity> {
    if m.dom().contains(loc) {
        m[loc]
    } else {
        Seq::empty()
    }
}

/// The index once `e` has arrived last in the cell at `loc`.
pub open spec fn with(m: IndexView, loc: GridLocation, e: Entity) -> IndexView {
    m.insert(loc, occupants(m, loc).push(e))
}

/// Whether inserting or moving `e` to `loc` changes the index: `loc` is on
/// the grid and `e` does not stand there yet.
pub open spec fn changes(m: IndexView, e: Entity, loc: GridLocation) -> bool {
    loc.in_bounds() && !holds(m, loc, e)
}

/// The index after `e` was inserted at `loc` or moved there: `e` has left
/// the cell in which it stood and arrived last at `loc`. Nothing changes
/// where `loc` is off the grid or `e` stands there already.
pub open spec fn moved(m: IndexView, e: Entity, loc: GridLocation) -> IndexView {
    if changes(m, e, loc) {
        with(without(m, e), loc, e)
    } else {
        m
    }
}

/// Removing an entity from a list without repeats leaves a list without
/// repeats that holds the other entities in their order.
pub proof fn lemma_seq_without(s: Seq<Entity>, e: Entity)
    requires
        s.no_duplicates(),
    ensures
        seq_without(s, e).no_duplicates(),
        !seq_without(s, e).contains(e),
        forall|x: Entity| x != e ==> (seq_without(s, e).contains(x) <==> s.contains(x)),
        s.contains(e) ==> seq_without(s, e).len() == s.len() - 1,
        !s.contains(e) ==> seq_without(s, e) == s,
{
    if s.contains(e) {
        let k = s.index_of(e);
        let t = s.remove(k);
        s.remove_ensures(k);
        assert forall|i: int, j: int| 0 <= i < t.len() && 0 <= j < t.len() && i != j implies t[i]
            != t[j] by {
            let i0 = if i < k { i } else { i + 1 };
            let j0 = if j < k { j } else { j + 1 };
            assert(t[i] == s[i0]);
            assert(t[j] == s[j0]);
        }
        assert forall|x: Entity| x != e implies (t.contains(x) <==> s.contains(x)) by {
            if t.contains(x) {
                let i = choose|i: int| 0 <= i < t.len() && t[i] == x;
                let i0 = if i < k { i } else { i + 1 };
                assert(s[i0] == x);
            }
            if s.contains(x) {
                let i = choose|i: int| 0 <= i < s.len() && s[i] == x;
                let i1 = if i < k { i } else { i - 1 };
                assert(t[i1] == x);
            }
        }
        if t.contains(e) {
            let i = choose|i: int| 0 <= i < t.len() && t[i] == e;
            let i0 = if i < k { i } else { i + 1 };
            assert(s[i0] == e);
            assert(s[k] == e);
        }
    }
}

/// Once `e` has left, the index is still well formed and `e` stands nowhere;
/// every other entity stands where it stood.
pub proof fn lemma_without(m: IndexView, e: Entity)
    requires
        index_wf(m),
    ensures
        index_wf(without(m, e)),
        !tracks(without(m, e), e),
        forall|loc: GridLocation, x: Entity|
            x != e ==> (#[trigger] holds(without(m, e), loc, x) <==> holds(m, loc, x)),
        !tracks(m, e) ==> without(m, e) == m,
{
    let w = without(m, e);
    assert forall|loc: GridLocation| #[trigger] m.dom().contains(loc) implies seq_without(
        m[loc],
        e,
    ).no_duplicates() && !seq_without(m[loc], e).contains(e) && (forall|x: Entity|
        x != e ==> (seq_without(m[loc], e).contains(x) <==> m[loc].contains(x))) && (
    !m[loc].contains(e) ==> seq_without(m[loc], e) == m[loc]) by {
        lemma_seq_without(m[loc], e);
    }
    assert forall|loc: GridLocation, x: Entity| x != e implies (#[trigger] holds(w, loc, x)
        <==> holds(m, loc, x)) by {
        if holds(m, loc, x) {
            assert(m.dom().contains(loc));
            assert(seq_without(m[loc], e).contains(x));
        }
    }
    assert(!tracks(w, e)) by {
        if tracks(w, e) {
            let loc = choose|loc: GridLocation| holds(w, loc, e);
            assert(m.dom().contains(loc));
        }
    }
    assert forall|loc1: GridLocation, loc2: GridLocation, x: Entity| #[trigger]
        holds(w, loc1, x) && #[trigger] holds(w, loc2, x) implies loc1 == loc2 by {
        if x == e {
            assert(tracks(w, e));
        } else {
            assert(holds(m, loc1, x) && holds(m, loc2, x));
        }
    }
    assert forall|loc: GridLocation| #[trigger] w.dom().contains(loc) implies w[loc].no_duplicates()
        && loc.in_bounds() && w[loc].len() > 0 by {
        assert(m.dom().contains(loc));
    }
    if !tracks(m, e) {
        assert forall|loc: GridLocation| m.dom().contains(loc) implies #[trigger] w.dom().contains(
            loc,
        ) && w[loc] == m[loc] by {
            assert(!holds(m, loc, e));
        }
        assert(w =~= m);
    }
}

/// Once `e`, which stood nowhere, has arrived at an in-bounds `loc`, the index
/// is still well formed; `e` stands at `loc` and every other entity where it stood.
pub proof fn lemma_with(m: IndexView, loc: GridLocation, e: Entity)
    requires
        index_wf(m),
        loc.in_bounds(),
        !tracks(m, e),
    ensures
        index_wf(with(m, loc, e)),
        holds(with(m, loc, e), loc, e),
        forall|l: GridLocation, x: Entity|
            x != e ==> (#[trigger] holds(with(m, loc, e), l, x) <==> holds(m, l, x)),
{
    let w = with(m, loc, e);
    let s = occupants(m, loc);
    let t = s.push(e);
    assert(t[s.len() as int] == e);
    assert(!s.contains(e)) by {
        if s.contains(e) {
            assert(holds(m, loc, e));
        }
    }
    assert(t.no_duplicates());
    assert forall|l: GridLocation, x: Entity| x != e implies (#[trigger] holds(w, l, x)
        <==> holds(m, l, x)) by {
        if l == loc {
            if holds(m, l, x) {
                let i = choose|i: int| 0 <= i < s.len() && s[i] == x;
                assert(t[i] == x);
            }
            if holds(w, l, x) {
                let i = choose|i: int| 0 <= i < t.len() && t[i] == x;
                assert(s[i] == x);
            }
        }
    }
    assert forall|loc1: GridLocation, loc2: GridLocation, x: Entity| #[trigger]
        holds(w, loc1, x) && #[trigger] holds(w, loc2, x) implies loc1 == loc2 by {
        if x == e {
            if loc1 != loc {
                assert(holds(m, loc1, e));
            }
            if loc2 != loc {
                assert(holds(m, loc2, e));
            }
        } else {
            assert(holds(m, loc1, x) && holds(m, loc2, x));
        }
    }
    assert forall|l: GridLocation| #[trigger] w.dom().contains(l) implies w[l].no_duplicates()
        && l.in_bounds() && w[l].len() > 0 by {
        if l != loc {
            assert(m.dom().contains(l));
        }
    }
}

/// Inserting or moving an entity keeps the index well formed. Afterwards the
/// entity stands at `loc` if `loc` is on the grid, and every other entity
/// stands where it stood.
pub proof fn lemma_moved(m: IndexView, e: Entity, loc: GridLocation)
    requires
        index_wf(m),
    ensures
        index_wf(moved(m, e, loc)),
        loc.in_bounds() ==> holds(moved(m, e, loc), loc, e),
        forall|l: GridLocation, x: Entity|
            x != e ==> (#[trigger] holds(moved(m, e, loc), l, x) <==> holds(m, l, x)),
{
    if changes(m, e, loc) {
        lemma_without(m, e);
        lemma_with(without(m, e), loc, e);
    }
}

/// The occupants of the cell at `loc`, each paired with `loc`.
pub open spec fn cell_pairs(m: IndexView, loc: GridLocation) -> Seq<(Entity, GridLocation)> {
    occupants(m, loc).map_values(|e: Entity| (e, loc))
}

/// The pairs of the first `n` cells in column-by-column order.
pub open spec fn pairs_below(m: IndexView, n: nat) -> Seq<(Entity, GridLocation)>
    decreases n,
{
    if n == 0 {
        Seq::empty()
    } else {
        pairs_below(m, (n - 1) as nat) + cell_pairs(m, GridLocation::at_index(n - 1))
    }
}

/// Every entity of the index paired with its cell: the cells column by
/// column, the occupants of a cell in the order in which they arrived.
pub open spec fn all_pairs(m: IndexView) -> Seq<(Entity, GridLocation)> {
    pairs_below(m, GRID_CELLS as nat)
}

/// The pairs of the first `n` cells are the entities that stand in one of
/// these cells, each with its cell.
proof fn lemma_pairs_below(m: IndexView, n: nat, e: Entity, loc: GridLocation)
    requires
        n <= GRID_CELLS,
    ensures
        pairs_below(m, n).contains((e, loc)) <==> holds(m, loc, e) && loc.in_bounds()
            && loc.cell_index() < n,
    decreases n,
{
    if n > 0 {
        let k = (n - 1) as nat;
        let here = GridLocation::at_index(k as int);
        let earlier = pairs_below(m, k);
        let last = cell_pairs(m, here);
        let all = pairs_below(m, n);
        lemma_pairs_below(m, k, e, loc);
        lemma_cell_index(k as int);
        if loc.in_bounds() {
            lemma_at_index(loc);
        }
        if all.contains((e, loc)) {
            let i = choose|i: int| 0 <= i < all.len() && all[i] == (e, loc);
            if i < earlier.len() {
                assert(earlier[i] == (e, loc));
            } else {
                let j = i - earlier.len();
                assert(last[j] == (e, loc));
                assert(occupants(m, here)[j] == e);
            }
        }
        if holds(m, loc, e) && loc.in_bounds() && loc.cell_index() < n {
            if loc.cell_index() < k {
                let i = choose|i: int| 0 <= i < earlier.len() && earlier[i] == (e, loc);
                assert(all[i] == (e, loc));
            } else {
                assert(loc == here);
                let j = choose|j: int| 0 <= j < m[loc].len() && m[loc][j] == e;
                assert(last[j] == (e, loc));
                assert(all[earlier.len() + j] == (e, loc));
            }
        }
    }
}

/// The pairs of a well-formed index are its entities, each with the cell in
/// which it stands.
pub proof fn lemma_all_pairs(m: IndexView, e: Entity, loc: GridLocation)
    requires
        index_wf(m),
    ensures
        all_pairs(m).contains((e, loc)) <==> holds(m, loc, e),
{
    lemma_pairs_below(m, GRID_CELLS as nat, e, loc);
    if holds(m, loc, e) {
        assert(m.dom().contains(loc));
        lemma_at_index(loc);
    }
}

} // verus!
