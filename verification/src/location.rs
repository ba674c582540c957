//! Grid coordinates and the fixed extent of the grid.

use vstd::prelude::*;

verus! {

/// Number of columns of the grid.
pub const GRID_SIZE_X: usize = 65;

/// Number of rows of the grid.
pub const GRID_SIZE_Y: usize = 36;

/// Number of cells of the grid.
pub const GRID_CELLS: usize = 2340;

/// A coordinate on the grid. A location may lie outside the grid; the index
/// only ever holds the ones for which [`GridLocation::in_bounds`] is true.
#[derive(Clone, Copy, PartialEq, Eq, Structural, Debug, Hash)]
pub struct GridLocation {
    pub x: i32,
    pub y: i32,
}

/// Why a coordinate was refused.
#[derive(Clone, Copy, PartialEq, Eq, Structural, Debug)]
pub enum GridLocationError {
    InvalidLocation,
}

/// The two's-complement reading of an unsigned 32-bit value.
pub open spec fn wrap_i32(v: u32) -> int {
    if v <= i32::MAX {
        v as int
    } else {
        v - 0x1_0000_0000
    }
}

/// `0 <= x < GRID_SIZE_X` and `0 <= y < GRID_SIZE_Y`.
pub open spec fn coords_in_bounds(x: int, y: int) -> bool {
    0 <= x < GRID_SIZE_X && 0 <= y < GRID_SIZE_Y
}

impl GridLocation {
    /// Whether the location names a cell of the grid.
    pub open spec fn in_bounds(self) -> bool {
        coords_in_bounds(self.x as int, self.y as int)
    }

    /// The position of the cell in column-by-column order: all of column 0
    /// from bottom to top, then column 1, and so on.
    pub open spec fn cell_index(self) -> int {
        self.x * GRID_SIZE_Y + self.y
    }

    /// The cell at position `i` of the column-by-column order.
    pub open spec fn at_index(i: int) -> GridLocation {
        GridLocation { x: (i / GRID_SIZE_Y as int) as i32, y: (i % GRID_SIZE_Y as int) as i32 }
    }

    /// The location with the given coordinates, each read as a signed value.
    pub fn new(x: u32, y: u32) -> (r: Self)
        ensures
            r.x == wrap_i32(x),
            r.y == wrap_i32(y),
    {
        assert(x as i32 == wrap_i32(x)) by (bit_vector);
        assert(y as i32 == wrap_i32(y)) by (bit_vector);
        GridLocation { x: x as i32, y: y as i32 }
    }

    /// The coordinates as a pair `(x, y)`.
    pub fn get_location(&self) -> (r: (i32, i32))
        ensures
            r == (self.x, self.y),
    {
        (self.x, self.y)
    }

    /// Whether the location names a cell of the grid.
    pub fn is_valid(&self) -> (r: bool)
        ensures
            r == self.in_bounds(),
    {
        self.x >= 0 && self.y >= 0 && self.x < GRID_SIZE_X as i32 && self.y < GRID_SIZE_Y as i32
    }

    /// Moves the location to `new_location` if that lies on the grid, and
    /// leaves it where it is otherwise.
    pub fn try_set_location(&mut self, new_location: (i32, i32)) -> (r: Result<
        (),
        GridLocationError,
    >)
        ensures
            coords_in_bounds(new_location.0 as int, new_location.1 as int) ==> r == Ok::<
                (),
                GridLocationError,
            >(()) && *final(self) == (GridLocation { x: new_location.0, y: new_location.1 }),
            !coords_in_bounds(new_location.0 as int, new_location.1 as int) ==> r == Err::<
                (),
                GridLocationError,
            >(GridLocationError::InvalidLocation) && *final(self) == *old(self),
    {
        let target = GridLocation { x: new_location.0, y: new_location.1 };
        if target.is_valid() {
            *self = target;
            Ok(())
        } else {
            Err(GridLocationError::InvalidLocation)
        }
    }
}

impl From<(i32, i32)> for GridLocation {
    fn from(value: (i32, i32)) -> (r: Self) {
        GridLocation { x: value.0, y: value.1 }
    }
}

impl vstd::std_specs::convert::FromSpecImpl<(i32, i32)> for GridLocation {
    open spec fn obeys_from_spec() -> bool {
        true
    }

    open spec fn from_spec(value: (i32, i32)) -> Self {
        GridLocation { x: value.0, y: value.1 }
    }
}

/// Positions and in-bounds locations correspond one to one.
pub proof fn lemma_cell_index(i: int)
    requires
        0 <= i < GRID_CELLS,
    ensures
        GridLocation::at_index(i).in_bounds(),
        GridLocation::at_index(i).cell_index() == i,
{
}

/// The position of an in-bounds location is below `GRID_CELLS`, and leads
/// back to the location.
pub proof fn lemma_at_index(loc: GridLocation)
    requires
        loc.in_bounds(),
    ensures
        0 <= loc.cell_index() < GRID_CELLS,
        GridLocation::at_index(loc.cell_index()) == loc,
{
}

} // verus!
