use tile_grid::{
    add_to_grid, compute_components, first_dirty_event, remove_from_grid, ComponentsEngine,
    ConnectedComponents, DirtyGridEvent, EngineState, Entity, Grid, GridLocation,
};

struct Wall;

fn at(x: i32, y: i32) -> GridLocation {
    GridLocation::from((x, y))
}

fn notices(n: usize) -> Vec<DirtyGridEvent<Wall>> {
    (0..n).map(|k| DirtyGridEvent::new(at(k as i32 % 65, 0))).collect()
}

fn marked(x: i32) -> ConnectedComponents<Wall> {
    ConnectedComponents::new(vec![vec![at(x, 0)]])
}

#[test]
fn new_engine_is_idle_and_has_published_nothing() {
    let engine: ComponentsEngine<Wall> = ComponentsEngine::new();
    assert_eq!(engine.state(), EngineState::Idle);
    assert!(engine.published().components.is_empty());
    let other: ComponentsEngine<Wall> = ComponentsEngine::default();
    assert_eq!(other.state(), EngineState::Idle);
}

#[test]
fn tick_without_notices_starts_nothing() {
    let mut engine: ComponentsEngine<Wall> = ComponentsEngine::new();
    let grid: Grid<Wall> = Grid::new();
    assert!(engine.update_connected_components(&notices(0), &grid).is_none());
    assert_eq!(engine.state(), EngineState::Idle);
}

#[test]
fn first_notice_starts_the_first_computation() {
    let mut engine: ComponentsEngine<Wall> = ComponentsEngine::new();
    let grid: Grid<Wall> = Grid::new();
    let job = engine.update_connected_components(&vec![first_dirty_event()], &grid);
    let job = job.expect("a computation");
    assert_eq!(job.ticket, 0);
    assert_eq!(job.superseded, None);
    assert!(job.snapshot.iter().is_empty());
    assert_eq!(engine.state(), EngineState::Computing);
}

#[test]
fn many_notices_start_one_computation() {
    let mut engine: ComponentsEngine<Wall> = ComponentsEngine::new();
    let grid: Grid<Wall> = Grid::new();
    let job = engine.update_connected_components(&notices(25), &grid).expect("a computation");
    assert_eq!(job.ticket, 0);
    assert!(engine.update_connected_components(&notices(0), &grid).is_none());
    assert_eq!(engine.state(), EngineState::Computing);
    let next = engine.update_connected_components(&notices(3), &grid).expect("a computation");
    assert_eq!(next.ticket, 1);
}

#[test]
fn snapshot_is_a_copy_of_the_index() {
    let mut engine: ComponentsEngine<Wall> = ComponentsEngine::new();
    let mut grid: Grid<Wall> = Grid::new();
    let dirty = add_to_grid(&mut grid, &vec![(Entity(1), at(2, 2))]);
    let job = engine.update_connected_components(&dirty, &grid).expect("a computation");
    grid.force_update(Entity(1), &at(3, 3));
    assert_eq!(job.snapshot.iter(), vec![(Entity(1), at(2, 2))]);
}

#[test]
fn result_of_the_current_computation_is_published() {
    let mut engine: ComponentsEngine<Wall> = ComponentsEngine::new();
    let grid: Grid<Wall> = Grid::new();
    let job = engine.update_connected_components(&notices(1), &grid).expect("a computation");
    assert!(engine.resolve_connected_components(job.ticket, marked(1)));
    assert_eq!(engine.state(), EngineState::Idle);
    assert_eq!(engine.published().components, vec![vec![at(1, 0)]]);
}

#[test]
fn published_areas_stay_until_the_next_result() {
    let mut engine: ComponentsEngine<Wall> = ComponentsEngine::new();
    let grid: Grid<Wall> = Grid::new();
    let job = engine.update_connected_components(&notices(1), &grid).expect("a computation");
    engine.resolve_connected_components(job.ticket, marked(1));
    let next = engine.update_connected_components(&notices(1), &grid).expect("a computation");
    assert_eq!(engine.published().components, vec![vec![at(1, 0)]]);
    engine.resolve_connected_components(next.ticket, marked(2));
    assert_eq!(engine.published().components, vec![vec![at(2, 0)]]);
}

#[test]
fn superseded_result_is_never_published() {
    let mut engine: ComponentsEngine<Wall> = ComponentsEngine::new();
    let grid: Grid<Wall> = Grid::new();
    let first = engine.update_connected_components(&notices(1), &grid).expect("a computation");
    let second = engine.update_connected_components(&notices(1), &grid).expect("a computation");
    assert_eq!(second.superseded, Some(first.ticket));
    assert_ne!(second.ticket, first.ticket);
    assert!(!engine.resolve_connected_components(first.ticket, marked(1)));
    assert!(engine.published().components.is_empty());
    assert_eq!(engine.state(), EngineState::Computing);
    assert!(engine.resolve_connected_components(second.ticket, marked(2)));
    assert_eq!(engine.published().components, vec![vec![at(2, 0)]]);
    assert!(!engine.resolve_connected_components(first.ticket, marked(1)));
    assert_eq!(engine.published().components, vec![vec![at(2, 0)]]);
    let third = engine.update_connected_components(&notices(1), &grid).expect("a computation");
    assert!(!engine.resolve_connected_components(first.ticket, marked(1)));
    assert!(!engine.resolve_connected_components(second.ticket, marked(1)));
    assert_eq!(engine.published().components, vec![vec![at(2, 0)]]);
    assert!(engine.resolve_connected_components(third.ticket, marked(3)));
    assert_eq!(engine.published().components, vec![vec![at(3, 0)]]);
}

#[test]
fn result_is_published_once() {
    let mut engine: ComponentsEngine<Wall> = ComponentsEngine::new();
    let grid: Grid<Wall> = Grid::new();
    let job = engine.update_connected_components(&notices(1), &grid).expect("a computation");
    assert!(engine.resolve_connected_components(job.ticket, marked(1)));
    assert!(!engine.resolve_connected_components(job.ticket, marked(2)));
    assert_eq!(engine.published().components, vec![vec![at(1, 0)]]);
}

#[test]
fn unknown_ticket_is_dropped() {
    let mut engine: ComponentsEngine<Wall> = ComponentsEngine::new();
    assert!(!engine.resolve_connected_components(0, marked(1)));
    assert!(!engine.resolve_connected_components(17, marked(1)));
    assert!(engine.published().components.is_empty());
    assert_eq!(engine.state(), EngineState::Idle);
}

#[test]
fn round_trip_through_the_engine() {
    let mut engine: ComponentsEngine<Wall> = ComponentsEngine::new();
    let mut grid: Grid<Wall> = Grid::new();
    let mut walls = Vec::new();
    for x in 0..65 {
        walls.push((Entity(x as u64), at(x, 4)));
    }
    let dirty = add_to_grid(&mut grid, &walls);
    assert_eq!(dirty.len(), 65);
    let job = engine.update_connected_components(&dirty, &grid).expect("a computation");
    let result = compute_components(&job.snapshot);
    assert!(engine.resolve_connected_components(job.ticket, result));
    assert!(!engine.published().is_in_same_component(&at(0, 0), &at(0, 8)));
    assert_eq!(engine.published().point_to_component(&at(7, 4)), None);

    let dirty = remove_from_grid(&mut grid, &vec![Entity(7)]);
    assert_eq!(dirty.len(), 1);
    assert!(!engine.published().is_in_same_component(&at(0, 0), &at(0, 8)));
    let job = engine.update_connected_components(&dirty, &grid).expect("a computation");
    let result = compute_components(&job.snapshot);
    assert!(engine.resolve_connected_components(job.ticket, result));
    assert!(engine.published().is_in_same_component(&at(0, 0), &at(0, 8)));
    assert!(engine.published().is_in_same_component(&at(7, 4), &at(7, 3)));
}
