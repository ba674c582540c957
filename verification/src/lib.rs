//! A grid of cells that tracks which entities stand where, and the groups of
//! free cells that can reach one another.

pub mod areas;
pub mod components;
pub mod engine;
pub mod grid;
pub mod index_model;
pub mod lifecycle;
pub mod location;
pub mod reachability;

pub use crate::areas::{all_points, compute_components, free_points, neumann_neighbors};
pub use crate::components::ConnectedComponents;
pub use crate::engine::{ComponentsEngine, EngineState, Submission};
pub use crate::grid::Grid;
pub use crate::index_model::Entity;
pub use crate::lifecycle::{
    add_to_grid, first_dirty_event, remove_from_grid, update_in_grid, DirtyGridEvent,
};
pub use crate::location::{GridLocation, GridLocationError, GRID_CELLS, GRID_SIZE_X, GRID_SIZE_Y};
