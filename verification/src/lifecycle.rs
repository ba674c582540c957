//! Keeping an index in step with the entities: what to do when entities
//! appear, move or disappear, and which cells to report as changed.

use vstd::prelude::*;
use std::marker::PhantomData;
use crate::grid::Grid;
use crate::index_model::{
    changes,
    holds,
    index_wf,
    is_free,
    lemma_moved,
    lemma_seq_without,
    lemma_without,
    moved,
    tracks,
    without,
    Entity,
    IndexView,
};
use crate::location::GridLocation;

verus! {

/// A notice that the occupants of one cell of channel `T` have changed.
pub struct DirtyGridEvent<T>(pub GridLocation, pub PhantomData<T>);

impl<T> DirtyGridEvent<T> {
    /// A notice for the cell at `location`.
    pub fn new(location: GridLocation) -> (r: Self)
        ensures
            r.0 == location,
    {
        DirtyGridEvent(location, PhantomData)
    }
}

/// The cells that a list of notices names, in order.
pub open spec fn notice_cells<T>(events: Seq<DirtyGridEvent<T>>) -> Seq<GridLocation> {
    events.map_values(|ev: DirtyGridEvent<T>| ev.0)
}

/// The index after each entity of `items` was inserted at its location or
/// moved there, one after the other.
pub open spec fn moved_all(m: IndexView, items: Seq<(Entity, GridLocation)>) -> IndexView
    decreases items.len(),
{
    if items.len() == 0 {
        m
    } else {
        moved(moved_all(m, items.drop_last()), items.last().0, items.last().1)
    }
}

/// The cells to report while `items` are inserted or moved one after the
/// other: the destination of each step that changes the index.
pub open spec fn moved_notices(m: IndexView, items: Seq<(Entity, GridLocation)>) -> Seq<
    GridLocation,
>
    decreases items.len(),
{
    if items.len() == 0 {
        Seq::empty()
    } else {
        let earlier = moved_notices(m, items.drop_last());
        if changes(moved_all(m, items.drop_last()), items.last().0, items.last().1) {
            earlier.push(items.last().1)
        } else {
            earlier
        }
    }
}

/// The cell in which `e` stands.
pub open spec fn location_of(m: IndexView, e: Entity) -> GridLocation
    recommends
        tracks(m, e),
{
    choose|loc: GridLocation| holds(m, loc, e)
}

/// The index after each entity of `gone` has left, one after the other.
pub open spec fn removed_all(m: IndexView, gone: Seq<Entity>) -> IndexView
    decreases gone.len(),
{
    if gone.len() == 0 {
        m
    } else {
        without(removed_all(m, gone.drop_last()), gone.last())
    }
}

/// The cells to report while the entities of `gone` leave one after the
/// other: the cell of each one that stood in the index when its turn came.
pub open spec fn removed_notices(m: IndexView, gone: Seq<Entity>) -> Seq<GridLocation>
    decreases gone.len(),
{
    if gone.len() == 0 {
        Seq::empty()
    } else {
        let earlier = removed_notices(m, gone.drop_last());
        let before = removed_all(m, gone.drop_last());
        if tracks(before, gone.last()) {
            earlier.push(location_of(before, gone.last()))
        } else {
            earlier
        }
    }
}

/// Inserts each entity of `items` at its location, or moves it there, and
/// returns a notice for each step that changed the index.
fn sync_locations<T>(grid: &mut Grid<T>, items: &Vec<(Entity, GridLocation)>) -> (dirty: Vec<
    DirtyGridEvent<T>,
>)
    requires
        old(grid).wf(),
    ensures
        final(grid).wf(),
        final(grid)@ == moved_all(old(grid)@, items@),
        notice_cells(dirty@) == moved_notices(old(grid)@, items@),
{
    let mut dirty: Vec<DirtyGridEvent<T>> = Vec::new();
    let mut i: usize = 0;
    assert(items@.take(0) =~= Seq::empty());
    assert(notice_cells(dirty@) =~= Seq::empty());
    while i < items.len()
        invariant
            i <= items.len(),
            grid.wf(),
            grid@ == moved_all(old(grid)@, items@.take(i as int)),
            notice_cells(dirty@) == moved_notices(old(grid)@, items@.take(i as int)),
        decreases items.len() - i,
    {
        let entity = items[i].0;
        let location = items[i].1;
        let ghost cells = notice_cells(dirty@);
        assert(items@.take(i + 1).drop_last() =~= items@.take(i as int));
        if grid.is_change(entity, &location) {
            grid.force_update(entity, &location);
            dirty.push(DirtyGridEvent::new(location));
            assert(notice_cells(dirty@) =~= cells.push(location));
        } else {
            assert(notice_cells(dirty@) =~= cells);
        }
        i += 1;
    }
    assert(items@.take(i as int) =~= items@);
    dirty
}

/// To run when entities have joined the channel: `added` lists each one with
/// its location. An entity whose location is on the grid is inserted there,
/// and a notice is returned for its cell unless it stood there already.
pub fn add_to_grid<T>(grid: &mut Grid<T>, added: &Vec<(Entity, GridLocation)>) -> (dirty: Vec<
    DirtyGridEvent<T>,
>)
    requires
        old(grid).wf(),
    ensures
        final(grid).wf(),
        final(grid)@ == moved_all(old(grid)@, added@),
        notice_cells(dirty@) == moved_notices(old(grid)@, added@),
{
    sync_locations(grid, added)
}

/// To run when entities of the channel have a new location: `changed` lists
/// each one with its location. An entity whose location is on the grid and
/// who does not stand there yet is moved there, and a notice is returned for
/// the cell of arrival.
pub fn update_in_grid<T>(grid: &mut Grid<T>, changed: &Vec<(Entity, GridLocation)>) -> (dirty:
    Vec<DirtyGridEvent<T>>)
    requires
        old(grid).wf(),
    ensures
        final(grid).wf(),
        final(grid)@ == moved_all(old(grid)@, changed@),
        notice_cells(dirty@) == moved_notices(old(grid)@, changed@),
{
    sync_locations(grid, changed)
}

/// To run when entities have left the channel. Each entity of `removed` that
/// stands in the index is taken out of its cell, and a notice is returned for
/// that cell.
pub fn remove_from_grid<T>(grid: &mut Grid<T>, removed: &Vec<Entity>) -> (dirty: Vec<
    DirtyGridEvent<T>,
>)
    requires
        old(grid).wf(),
    ensures
        final(grid).wf(),
        final(grid)@ == removed_all(old(grid)@, removed@),
        notice_cells(dirty@) == removed_notices(old(grid)@, removed@),
{
    let mut dirty: Vec<DirtyGridEvent<T>> = Vec::new();
    let mut i: usize = 0;
    assert(removed@.take(0) =~= Seq::empty());
    assert(notice_cells(dirty@) =~= Seq::empty());
    while i < removed.len()
        invariant
            i <= removed.len(),
            grid.wf(),
            grid@ == removed_all(old(grid)@, removed@.take(i as int)),
            notice_cells(dirty@) == removed_notices(old(grid)@, removed@.take(i as int)),
        decreases removed.len() - i,
    {
        let ghost cells = notice_cells(dirty@);
        let ghost before = grid@;
        assert(removed@.take(i + 1).drop_last() =~= removed@.take(i as int));
        match grid.remove(removed[i]) {
            Some(location) => {
                proof {
                    assert(tracks(before, removed[i as int]));
                    let gone = removed[i as int];
                    assert(holds(before, location_of(before, gone), gone));
                }
                dirty.push(DirtyGridEvent::new(location));
                assert(notice_cells(dirty@) =~= cells.push(location));
            },
            None => {
                assert(notice_cells(dirty@) =~= cells);
            },
        }
        i += 1;
    }
    assert(removed@.take(i as int) =~= removed@);
    dirty
}

/// The notice that starts the first computation of the free areas.
pub fn first_dirty_event<T>() -> (r: DirtyGridEvent<T>)
    ensures
        r.0 == (GridLocation { x: 0, y: 0 }),
{
    DirtyGridEvent::new(GridLocation::new(0, 0))
}

/// However many entities are inserted or moved, the index keeps its
/// invariant: only cells of the grid are occupied, and each entity stands in
/// at most one cell.
pub proof fn lemma_moved_all_wf(m: IndexView, items: Seq<(Entity, GridLocation)>)
    requires
        index_wf(m),
    ensures
        index_wf(moved_all(m, items)),
    decreases items.len(),
{
    if items.len() > 0 {
        lemma_moved_all_wf(m, items.drop_last());
        lemma_moved(moved_all(m, items.drop_last()), items.last().0, items.last().1);
    }
}

/// However many entities leave, the index keeps its invariant, and none of
/// them stands in it afterwards.
pub proof fn lemma_removed_all_wf(m: IndexView, gone: Seq<Entity>)
    requires
        index_wf(m),
    ensures
        index_wf(removed_all(m, gone)),
        forall|k: int| 0 <= k < gone.len() ==> !tracks(removed_all(m, gone), #[trigger] gone[k]),
    decreases gone.len(),
{
    if gone.len() > 0 {
        let rest = gone.drop_last();
        let before = removed_all(m, rest);
        let after = removed_all(m, gone);
        lemma_removed_all_wf(m, rest);
        lemma_without(before, gone.last());
        assert forall|k: int| 0 <= k < gone.len() implies !tracks(after, #[trigger] gone[k]) by {
            if k < rest.len() && gone[k] != gone.last() {
                assert(rest[k] == gone[k]);
                if tracks(after, gone[k]) {
                    let loc = choose|loc: GridLocation| holds(after, loc, gone[k]);
                    assert(holds(before, loc, gone[k]));
                    assert(tracks(before, gone[k]));
                }
            }
        }
    }
}

/// Inserting an entity twice at the same cell is the same as inserting it
/// once: the second insertion changes nothing, raises no notice, and the
/// entity stands once in the cell.
pub proof fn lemma_insert_twice(m: IndexView, e: Entity, loc: GridLocation)
    requires
        index_wf(m),
    ensures
        moved(moved(m, e, loc), e, loc) == moved(m, e, loc),
        !changes(moved(m, e, loc), e, loc),
        moved_all(m, seq![(e, loc), (e, loc)]) == moved(m, e, loc),
        moved_notices(m, seq![(e, loc), (e, loc)]) == moved_notices(m, seq![(e, loc)]),
        loc.in_bounds() ==> moved(m, e, loc)[loc].no_duplicates() && moved(m, e, loc)[loc].contains(
            e,
        ),
{
    lemma_moved(m, e, loc);
    let one = seq![(e, loc)];
    let two = seq![(e, loc), (e, loc)];
    assert(two.drop_last() =~= one);
    assert(one.drop_last() =~= Seq::<(Entity, GridLocation)>::empty());
    assert(moved_all(m, one.drop_last()) == m);
    assert(moved_all(m, one) == moved(m, e, loc));
    assert(moved_all(m, two) == moved(moved_all(m, one), e, loc));
    if loc.in_bounds() {
        assert(moved(m, e, loc).dom().contains(loc));
    }
}

/// When the one occupant of a cell leaves, the cell becomes free and exactly
/// one notice is raised, for that cell.
pub proof fn lemma_remove_sole_occupant(m: IndexView, e: Entity, loc: GridLocation)
    requires
        index_wf(m),
        m.dom().contains(loc),
        m[loc] == seq![e],
    ensures
        is_free(without(m, e), loc),
        removed_all(m, seq![e]) == without(m, e),
        removed_notices(m, seq![e]) == seq![loc],
{
    let one = seq![e];
    assert(one.drop_last() =~= Seq::<Entity>::empty());
    assert(removed_all(m, one.drop_last()) == m);
    assert(m[loc][0] == e);
    assert(holds(m, loc, e));
    assert(tracks(m, e));
    assert(holds(m, location_of(m, e), e));
    assert(location_of(m, e) == loc);
    lemma_seq_without(m[loc], e);
    assert(removed_notices(m, one.drop_last()) =~= Seq::<GridLocation>::empty());
    assert(removed_notices(m, one) =~= seq![loc]);
}

} // verus!
