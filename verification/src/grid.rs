//! The grid index: which entities stand in which cell.

use vstd::prelude::*;
use std::marker::PhantomData;
use crate::index_model::{
    all_pairs,
    cell_pairs,
    changes,
    holds,
    index_wf,
    lemma_moved,
    lemma_without,
    moved,
    occupants,
    pairs_below,
    seq_without,
    tracks,
    with,
    without,
    Entity,
    IndexView,
};
use crate::location::{GridLocation, GRID_CELLS, GRID_SIZE_Y};

verus! {

/// An index of the entities of one channel. `T` names the channel: indexes
/// of different channels are different types and share nothing.
pub struct Grid<T> {
    /// One slot per cell, column by column; `None` for a free cell.
    entities: Vec<Option<Vec<Entity>>>,
    _marker: PhantomData<T>,
}

/// What a list of slots holds, as a map from the occupied cells.
spec fn slots_view(slots: Seq<Option<Vec<Entity>>>) -> IndexView {
    Map::new(
        |loc: GridLocation|
            loc.in_bounds() && loc.cell_index() < slots.len() && slots[loc.cell_index()] is Some,
        |loc: GridLocation| slots[loc.cell_index()].unwrap()@,
    )
}

impl<T> View for Grid<T> {
    type V = IndexView;

    closed spec fn view(&self) -> IndexView {
        slots_view(self.entities@)
    }
}

impl<T> Grid<T> {
    /// There is one slot for each cell of the grid.
    pub closed spec fn has_all_slots(&self) -> bool {
        self.entities.len() == GRID_CELLS
    }

    /// The invariant of the index: only cells of the grid are occupied, an
    /// occupied cell has at least one occupant, and an entity stands in at
    /// most one cell.
    pub open spec fn wf(&self) -> bool {
        self.has_all_slots() && index_wf(self@)
    }

    /// An index in which every cell is free.
    pub fn new() -> (r: Self)
        ensures
            r.wf(),
            r@ == Map::<GridLocation, Seq<Entity>>::empty(),
    {
        let mut entities: Vec<Option<Vec<Entity>>> = Vec::new();
        let mut i: usize = 0;
        while i < GRID_CELLS
            invariant
                i <= GRID_CELLS,
                entities.len() == i,
                forall|k: int| 0 <= k < i ==> entities[k] is None,
            decreases GRID_CELLS - i,
        {
            entities.push(None);
            i += 1;
        }
        let r = Grid { entities, _marker: PhantomData };
        assert(r@ =~= Map::<GridLocation, Seq<Entity>>::empty());
        r
    }

    /// Whether `location` names a cell of the grid.
    pub fn valid_index(location: &GridLocation) -> (r: bool)
        ensures
            r == location.in_bounds(),
    {
        location.is_valid()
    }

    /// Whether `location` is on the grid and some entity stands there.
    pub fn occupied(&self, location: &GridLocation) -> (r: bool)
        requires
            self.wf(),
        ensures
            r == self@.dom().contains(*location),
    {
        if !location.is_valid() {
            return false;
        }
        let i: usize = slot_of(location);
        self.entities[i].is_some()
    }

    /// The occupants of the cell at `location`, in the order in which they
    /// arrived; `None` where the cell is free or off the grid.
    pub fn cell(&self, location: &GridLocation) -> (r: Option<&Vec<Entity>>)
        requires
            self.wf(),
        ensures
            r is Some == self@.dom().contains(*location),
            r is Some ==> r.unwrap()@ == self@[*location],
    {
        if !location.is_valid() {
            return None;
        }
        let i: usize = slot_of(location);
        self.entities[i].as_ref()
    }

    /// The cell in which `to_find` stands, if it stands in one.
    pub fn find_in_grid(&self, to_find: Entity) -> (r: Option<GridLocation>)
        requires
            self.wf(),
        ensures
            match r {
                Some(loc) => holds(self@, loc, to_find),
                None => !tracks(self@, to_find),
            },
    {
        let mut i: usize = 0;
        while i < GRID_CELLS
            invariant
                i <= GRID_CELLS,
                self.wf(),
                forall|k: int|
                    0 <= k < i ==> !(#[trigger] self.entities[k] is Some
                        && self.entities[k].unwrap()@.contains(to_find)),
            decreases GRID_CELLS - i,
        {
            if let Some(here) = &self.entities[i] {
                if position_in(here, to_find).is_some() {
                    let loc = location_at(i);
                    return Some(loc);
                }
            }
            i += 1;
        }
        proof {
            if tracks(self@, to_find) {
                let loc = choose|loc: GridLocation| holds(self@, loc, to_find);
                assert(self@.dom().contains(loc));
                assert(self.entities[loc.cell_index()] is Some);
            }
        }
        None
    }

    /// Takes `entity` out of the cell in which it stands, and says which
    /// cell that was. A cell left without occupants becomes free. Nothing
    /// changes where `entity` stands in no cell.
    pub fn remove(&mut self, entity: Entity) -> (r: Option<GridLocation>)
        requires
            old(self).wf(),
        ensures
            final(self).wf(),
            final(self)@ == without(old(self)@, entity),
            match r {
                Some(loc) => holds(old(self)@, loc, entity),
                None => !tracks(old(self)@, entity),
            },
    {
        proof {
            lemma_without(self@, entity);
        }
        match self.find_in_grid(entity) {
            None => None,
            Some(loc) => {
                let i: usize = slot_of(&loc);
                let ghost before = self.entities@;
                let ghost here = before[i as int].unwrap()@;
                let mut emptied: bool = false;
                match &mut self.entities[i] {
                    Some(existing) => {
                        match position_in(existing, entity) {
                            Some(k) => {
                                proof {
                                    assert(here.no_duplicates()) by {
                                        assert(slots_view(before).dom().contains(loc));
                                    }
                                    assert(here.index_of(entity) == k);
                                }
                                existing.remove(k);
                                emptied = existing.len() == 0;
                            },
                            None => {},
                        }
                    },
                    None => {},
                }
                if emptied {
                    self.entities[i] = None;
                }
                proof {
                    let after = self.entities@;
                    let m = slots_view(before);
                    let gone = seq_without(here, entity);
                    assert(after == before.update(
                        i as int,
                        if gone.len() == 0 {
                            None
                        } else {
                            after[i as int]
                        },
                    ));
                    assert(gone.len() > 0 ==> after[i as int] is Some && after[i as int].unwrap()@
                        == gone);
                    lemma_slots_changed_at(before, after, loc);
                    assert forall|l: GridLocation| l != loc && #[trigger] m.dom().contains(
                        l,
                    ) implies seq_without(m[l], entity) == m[l] by {
                        assert(holds(m, loc, entity));
                        if m[l].contains(entity) {
                            assert(holds(m, l, entity));
                        }
                    }
                    assert(slots_view(after) =~= without(m, entity));
                }
                Some(loc)
            },
        }
    }

    /// Inserts `entity` at `new_location`, or moves it there from the cell
    /// in which it stands. Nothing changes where `new_location` is off the
    /// grid or `entity` stands there already.
    pub fn force_update(&mut self, entity: Entity, new_location: &GridLocation)
        requires
            old(self).wf(),
        ensures
            final(self).wf(),
            final(self)@ == moved(old(self)@, entity, *new_location),
    {
        if !self.is_change(entity, new_location) {
            return;
        }
        proof {
            lemma_moved(self@, entity, *new_location);
            lemma_without(self@, entity);
        }
        self.remove(entity);
        let i: usize = slot_of(new_location);
        let ghost before = self.entities@;
        match &mut self.entities[i] {
            Some(existing) => {
                existing.push(entity);
            },
            None => {
                self.entities[i] = Some(vec![entity]);
            },
        }
        proof {
            let after = self.entities@;
            assert(after == before.update(i as int, after[i as int]));
            assert(after[i as int] is Some);
            assert(after[i as int].unwrap()@ =~= occupants(slots_view(before), *new_location).push(
                entity,
            ));
            lemma_slots_changed_at(before, after, *new_location);
            assert(slots_view(after) =~= with(slots_view(before), *new_location, entity));
        }
    }

    /// Whether inserting or moving `entity` to `location` would change the
    /// index: `location` is on the grid and `entity` does not stand there.
    pub fn is_change(&self, entity: Entity, location: &GridLocation) -> (r: bool)
        requires
            self.wf(),
        ensures
            r == changes(self@, entity, *location),
    {
        if !location.is_valid() {
            return false;
        }
        let i: usize = slot_of(location);
        match &self.entities[i] {
            Some(here) => position_in(here, entity).is_none(),
            None => true,
        }
    }

    /// Every entity of the index with its cell: the cells column by column,
    /// the occupants of a cell in the order in which they arrived.
    pub fn iter(&self) -> (r: Vec<(Entity, GridLocation)>)
        requires
            self.wf(),
        ensures
            r@ == all_pairs(self@),
    {
        let mut out: Vec<(Entity, GridLocation)> = Vec::new();
        let mut i: usize = 0;
        while i < GRID_CELLS
            invariant
                i <= GRID_CELLS,
                self.wf(),
                out@ == pairs_below(self@, i as nat),
            decreases GRID_CELLS - i,
        {
            let loc = location_at(i);
            let ghost done = out@;
            if let Some(here) = &self.entities[i] {
                let mut k: usize = 0;
                while k < here.len()
                    invariant
                        k <= here.len(),
                        here@ == occupants(self@, loc),
                        out@ == done + cell_pairs(self@, loc).take(k as int),
                    decreases here.len() - k,
                {
                    out.push((here[k], loc));
                    assert(cell_pairs(self@, loc).take(k + 1) =~= cell_pairs(self@, loc).take(
                        k as int,
                    ).push((here[k as int], loc)));
                    k += 1;
                }
                assert(cell_pairs(self@, loc).take(k as int) =~= cell_pairs(self@, loc));
            } else {
                assert(out@ =~= done + cell_pairs(self@, loc));
            }
            i += 1;
        }
        out
    }
}

/// The slot of an in-bounds location.
fn slot_of(location: &GridLocation) -> (i: usize)
    requires
        location.in_bounds(),
    ensures
        i == location.cell_index(),
        i < GRID_CELLS,
{
    location.x as usize * GRID_SIZE_Y + location.y as usize
}

/// The location of a slot.
fn location_at(i: usize) -> (loc: GridLocation)
    requires
        i < GRID_CELLS,
    ensures
        loc == GridLocation::at_index(i as int),
        loc.in_bounds(),
        loc.cell_index() == i,
{
    GridLocation { x: (i / GRID_SIZE_Y) as i32, y: (i % GRID_SIZE_Y) as i32 }
}

/// The first position of `e` in `v`.
fn position_in(v: &Vec<Entity>, e: Entity) -> (r: Option<usize>)
    ensures
        match r {
            Some(k) => k < v.len() && v[k as int] == e && forall|j: int| 0 <= j < k ==> v[j] != e,
            None => !v@.contains(e),
        },
{
    let mut k: usize = 0;
    while k < v.len()
        invariant
            k <= v.len(),
            forall|j: int| 0 <= j < k ==> v[j] != e,
        decreases v.len() - k,
    {
        if v[k] == e {
            return Some(k);
        }
        k += 1;
    }
    None
}

/// Two lists of slots that differ in the slot of `loc` alone hold the same
/// in every other cell.
proof fn lemma_slots_changed_at(
    before: Seq<Option<Vec<Entity>>>,
    after: Seq<Option<Vec<Entity>>>,
    loc: GridLocation,
)
    requires
        loc.in_bounds(),
        before.len() == GRID_CELLS,
        after == before.update(loc.cell_index(), after[loc.cell_index()]),
    ensures
        forall|l: GridLocation|
            l != loc ==> (#[trigger] slots_view(after).dom().contains(l) <==> slots_view(
                before,
            ).dom().contains(l)),
        forall|l: GridLocation|
            l != loc && slots_view(before).dom().contains(l) ==> #[trigger] slots_view(after)[l]
                == slots_view(before)[l],
        slots_view(after).dom().contains(loc) <==> after[loc.cell_index()] is Some,
        after[loc.cell_index()] is Some ==> slots_view(after)[loc]
            == after[loc.cell_index()].unwrap()@,
{
    assert forall|l: GridLocation| l != loc && l.in_bounds() implies l.cell_index()
        != loc.cell_index() by {
        crate::location::lemma_at_index(l);
        crate::location::lemma_at_index(loc);
    }
}

impl<T> Default for Grid<T> {
    /// An index in which every cell is free.
    fn default() -> (r: Self)
        ensures
            r.wf(),
            r@ == Map::<GridLocation, Seq<Entity>>::empty(),
    {
        Grid::new()
    }
}

impl<T> Clone for Grid<T> {
    /// A copy that shares nothing with the index it was made from.
    fn clone(&self) -> (r: Self)
        ensures
            r@ == self@,
            self.wf() ==> r.wf(),
    {
        let mut entities: Vec<Option<Vec<Entity>>> = Vec::new();
        let mut i: usize = 0;
        while i < self.entities.len()
            invariant
                i <= self.entities.len(),
                entities.len() == i,
                forall|k: int|
                    0 <= k < i ==> (#[trigger] entities[k] is Some) == (self.entities[k] is Some),
                forall|k: int|
                    0 <= k < i && self.entities[k] is Some ==> (#[trigger] entities[k]).unwrap()@
                        == self.entities[k].unwrap()@,
            decreases self.entities.len() - i,
        {
            match &self.entities[i] {
                Some(here) => {
                    entities.push(Some(copy_of(here)));
                },
                None => {
                    entities.push(None);
                },
            }
            i += 1;
        }
        let r = Grid { entities, _marker: PhantomData };
        assert(r@ =~= self@);
        r
    }
}

/// A list with the elements of `v`.
fn copy_of(v: &Vec<Entity>) -> (r: Vec<Entity>)
    ensures
        r@ == v@,
{
    let mut out: Vec<Entity> = Vec::new();
    let mut k: usize = 0;
    while k < v.len()
        invariant
            k <= v.len(),
            out@ == v@.take(k as int),
        decreases v.len() - k,
    {
        out.push(v[k]);
        assert(v@.take(k + 1) =~= v@.take(k as int).push(v[k as int]));
        k += 1;
    }
    assert(v@.take(k as int) =~= v@);
    out
}

} // verus!
