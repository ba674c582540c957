use tile_grid::{Entity, Grid, GridLocation};

struct Item;

fn at(x: i32, y: i32) -> GridLocation {
    GridLocation::from((x, y))
}

#[test]
fn new_grid_is_empty() {
    let grid: Grid<Item> = Grid::new();
    assert!(!grid.occupied(&at(0, 0)));
    assert!(!grid.occupied(&at(64, 35)));
    assert!(grid.iter().is_empty());
    assert_eq!(grid.find_in_grid(Entity(1)), None);
    assert_eq!(grid.cell(&at(3, 3)), None);
}

#[test]
fn default_grid_is_empty() {
    let grid: Grid<Item> = Grid::default();
    assert!(grid.iter().is_empty());
}

#[test]
fn force_update_inserts() {
    let mut grid: Grid<Item> = Grid::new();
    grid.force_update(Entity(7), &at(2, 3));
    assert!(grid.occupied(&at(2, 3)));
    assert!(!grid.occupied(&at(3, 2)));
    assert_eq!(grid.find_in_grid(Entity(7)), Some(at(2, 3)));
    assert_eq!(grid.cell(&at(2, 3)), Some(&vec![Entity(7)]));
    assert_eq!(grid.iter(), vec![(Entity(7), at(2, 3))]);
}

#[test]
fn force_update_twice_keeps_one_copy() {
    let mut grid: Grid<Item> = Grid::new();
    grid.force_update(Entity(7), &at(2, 3));
    grid.force_update(Entity(7), &at(2, 3));
    assert_eq!(grid.cell(&at(2, 3)), Some(&vec![Entity(7)]));
    assert_eq!(grid.iter().len(), 1);
}

#[test]
fn force_update_where_present_keeps_the_order() {
    let mut grid: Grid<Item> = Grid::new();
    grid.force_update(Entity(1), &at(4, 4));
    grid.force_update(Entity(2), &at(4, 4));
    grid.force_update(Entity(1), &at(4, 4));
    assert_eq!(grid.cell(&at(4, 4)), Some(&vec![Entity(1), Entity(2)]));
}

#[test]
fn force_update_moves() {
    let mut grid: Grid<Item> = Grid::new();
    grid.force_update(Entity(7), &at(2, 3));
    grid.force_update(Entity(7), &at(10, 20));
    assert!(!grid.occupied(&at(2, 3)));
    assert_eq!(grid.cell(&at(2, 3)), None);
    assert!(grid.occupied(&at(10, 20)));
    assert_eq!(grid.find_in_grid(Entity(7)), Some(at(10, 20)));
    assert_eq!(grid.iter(), vec![(Entity(7), at(10, 20))]);
}

#[test]
fn force_update_moves_one_occupant_and_leaves_the_others() {
    let mut grid: Grid<Item> = Grid::new();
    grid.force_update(Entity(1), &at(5, 5));
    grid.force_update(Entity(2), &at(5, 5));
    grid.force_update(Entity(3), &at(5, 5));
    grid.force_update(Entity(2), &at(6, 5));
    assert_eq!(grid.cell(&at(5, 5)), Some(&vec![Entity(1), Entity(3)]));
    assert_eq!(grid.cell(&at(6, 5)), Some(&vec![Entity(2)]));
}

#[test]
fn force_update_to_an_invalid_location_changes_nothing() {
    let mut grid: Grid<Item> = Grid::new();
    grid.force_update(Entity(7), &at(2, 3));
    grid.force_update(Entity(7), &at(65, 3));
    grid.force_update(Entity(7), &at(-1, 3));
    grid.force_update(Entity(8), &at(2, 36));
    assert_eq!(grid.find_in_grid(Entity(7)), Some(at(2, 3)));
    assert_eq!(grid.find_in_grid(Entity(8)), None);
    assert_eq!(grid.iter(), vec![(Entity(7), at(2, 3))]);
}

#[test]
fn occupied_is_false_off_the_grid() {
    let mut grid: Grid<Item> = Grid::new();
    grid.force_update(Entity(7), &at(0, 0));
    assert!(!grid.occupied(&at(-1, 0)));
    assert!(!grid.occupied(&at(65, 0)));
    assert!(!grid.occupied(&at(0, 36)));
    assert!(!grid.occupied(&at(i32::MAX, i32::MIN)));
    assert_eq!(grid.cell(&at(-1, 0)), None);
}

#[test]
fn remove_takes_the_entity_out() {
    let mut grid: Grid<Item> = Grid::new();
    grid.force_update(Entity(1), &at(5, 5));
    grid.force_update(Entity(2), &at(5, 5));
    assert_eq!(grid.remove(Entity(1)), Some(at(5, 5)));
    assert!(grid.occupied(&at(5, 5)));
    assert_eq!(grid.cell(&at(5, 5)), Some(&vec![Entity(2)]));
    assert_eq!(grid.find_in_grid(Entity(1)), None);
}

#[test]
fn remove_of_the_sole_occupant_frees_the_cell() {
    let mut grid: Grid<Item> = Grid::new();
    grid.force_update(Entity(1), &at(5, 5));
    assert_eq!(grid.remove(Entity(1)), Some(at(5, 5)));
    assert!(!grid.occupied(&at(5, 5)));
    assert_eq!(grid.cell(&at(5, 5)), None);
    assert!(grid.iter().is_empty());
}

#[test]
fn remove_of_an_unknown_entity_changes_nothing() {
    let mut grid: Grid<Item> = Grid::new();
    grid.force_update(Entity(1), &at(5, 5));
    assert_eq!(grid.remove(Entity(9)), None);
    assert_eq!(grid.iter(), vec![(Entity(1), at(5, 5))]);
}

#[test]
fn iter_goes_column_by_column() {
    let mut grid: Grid<Item> = Grid::new();
    grid.force_update(Entity(4), &at(1, 0));
    grid.force_update(Entity(3), &at(0, 35));
    grid.force_update(Entity(2), &at(0, 1));
    grid.force_update(Entity(1), &at(64, 35));
    grid.force_update(Entity(5), &at(0, 1));
    assert_eq!(
        grid.iter(),
        vec![
            (Entity(2), at(0, 1)),
            (Entity(5), at(0, 1)),
            (Entity(3), at(0, 35)),
            (Entity(4), at(1, 0)),
            (Entity(1), at(64, 35)),
        ]
    );
}

#[test]
fn iter_can_be_taken_again() {
    let mut grid: Grid<Item> = Grid::new();
    grid.force_update(Entity(4), &at(1, 0));
    assert_eq!(grid.iter(), grid.iter());
}

#[test]
fn is_change_tells_when_an_update_matters() {
    let mut grid: Grid<Item> = Grid::new();
    assert!(grid.is_change(Entity(1), &at(5, 5)));
    assert!(!grid.is_change(Entity(1), &at(65, 5)));
    grid.force_update(Entity(1), &at(5, 5));
    assert!(!grid.is_change(Entity(1), &at(5, 5)));
    assert!(grid.is_change(Entity(2), &at(5, 5)));
    assert!(grid.is_change(Entity(1), &at(5, 6)));
}

#[test]
fn clone_is_independent() {
    let mut grid: Grid<Item> = Grid::new();
    grid.force_update(Entity(1), &at(5, 5));
    let snapshot = grid.clone();
    grid.force_update(Entity(1), &at(6, 6));
    grid.force_update(Entity(2), &at(7, 7));
    assert_eq!(snapshot.iter(), vec![(Entity(1), at(5, 5))]);
    assert_eq!(grid.iter(), vec![(Entity(1), at(6, 6)), (Entity(2), at(7, 7))]);
}

#[test]
fn every_indexed_location_is_in_bounds() {
    let mut grid: Grid<Item> = Grid::new();
    let mut n: u64 = 0;
    for x in -2..68 {
        for y in -2..39 {
            grid.force_update(Entity(n), &at(x, y));
            n += 1;
        }
    }
    let pairs = grid.iter();
    assert_eq!(pairs.len(), 65 * 36);
    for (_, loc) in pairs {
        assert!(0 <= loc.x && loc.x < 65);
        assert!(0 <= loc.y && loc.y < 36);
    }
}

#[test]
fn each_entity_stands_in_one_cell() {
    let mut grid: Grid<Item> = Grid::new();
    for step in 0..200u64 {
        let e = Entity(step % 7);
        let loc = at(((step * 13) % 65) as i32, ((step * 5) % 36) as i32);
        grid.force_update(e, &loc);
        let pairs = grid.iter();
        for id in 0..7u64 {
            let count = pairs.iter().filter(|(entity, _)| *entity == Entity(id)).count();
            assert!(count <= 1);
        }
        assert_eq!(grid.find_in_grid(e), Some(loc));
    }
}

#[test]
fn channels_do_not_share_state() {
    struct Floor;
    let mut items: Grid<Item> = Grid::new();
    let floor: Grid<Floor> = Grid::new();
    items.force_update(Entity(1), &at(1, 1));
    assert!(items.occupied(&at(1, 1)));
    assert!(!floor.occupied(&at(1, 1)));
}
