use tile_grid::{Grid, GridLocation, GridLocationError, GRID_CELLS, GRID_SIZE_X, GRID_SIZE_Y};

struct Wall;

#[test]
fn grid_extent_is_fixed() {
    assert_eq!(GRID_SIZE_X, 65);
    assert_eq!(GRID_SIZE_Y, 36);
    assert_eq!(GRID_CELLS, GRID_SIZE_X * GRID_SIZE_Y);
}

#[test]
fn new_location_keeps_its_coordinates() {
    let loc = GridLocation::new(3, 7);
    assert_eq!(loc.x, 3);
    assert_eq!(loc.y, 7);
    assert_eq!(loc.get_location(), (3, 7));
}

#[test]
fn new_location_reads_large_values_as_signed() {
    let loc = GridLocation::new(u32::MAX, 0x8000_0000);
    assert_eq!(loc.get_location(), (-1, i32::MIN));
    assert!(!Grid::<Wall>::valid_index(&loc));
}

#[test]
fn location_from_pair() {
    let loc = GridLocation::from((-4, 9));
    assert_eq!(loc, GridLocation { x: -4, y: 9 });
    let other: GridLocation = (2, 1).into();
    assert_eq!(other, GridLocation::new(2, 1));
}

#[test]
fn valid_index_accepts_the_corners() {
    assert!(Grid::<Wall>::valid_index(&GridLocation::new(0, 0)));
    assert!(Grid::<Wall>::valid_index(&GridLocation::new(64, 35)));
    assert!(Grid::<Wall>::valid_index(&GridLocation::new(64, 0)));
    assert!(Grid::<Wall>::valid_index(&GridLocation::new(0, 35)));
}

#[test]
fn valid_index_refuses_what_lies_outside() {
    assert!(!Grid::<Wall>::valid_index(&GridLocation::new(65, 0)));
    assert!(!Grid::<Wall>::valid_index(&GridLocation::new(0, 36)));
    assert!(!Grid::<Wall>::valid_index(&GridLocation::from((-1, 0))));
    assert!(!Grid::<Wall>::valid_index(&GridLocation::from((0, -1))));
    assert!(!Grid::<Wall>::valid_index(&GridLocation::from((i32::MAX, i32::MAX))));
    assert!(!Grid::<Wall>::valid_index(&GridLocation::from((i32::MIN, 3))));
}

#[test]
fn is_valid_agrees_with_valid_index() {
    for (x, y) in [(0, 0), (64, 35), (65, 35), (64, 36), (-1, 5), (5, -1)] {
        let loc = GridLocation::from((x, y));
        assert_eq!(loc.is_valid(), Grid::<Wall>::valid_index(&loc));
    }
}

#[test]
fn try_set_location_moves_to_a_cell_of_the_grid() {
    let mut loc = GridLocation::new(1, 1);
    assert_eq!(loc.try_set_location((64, 35)), Ok(()));
    assert_eq!(loc.get_location(), (64, 35));
}

#[test]
fn try_set_location_refuses_and_keeps_the_old_value() {
    let mut loc = GridLocation::new(1, 1);
    assert_eq!(loc.try_set_location((65, 0)), Err(GridLocationError::InvalidLocation));
    assert_eq!(loc.get_location(), (1, 1));
    assert_eq!(loc.try_set_location((0, -1)), Err(GridLocationError::InvalidLocation));
    assert_eq!(loc.get_location(), (1, 1));
    assert_eq!(loc.try_set_location((3, 36)), Err(GridLocationError::InvalidLocation));
    assert_eq!(loc.get_location(), (1, 1));
}

#[test]
fn try_set_location_works_from_an_invalid_start() {
    let mut loc = GridLocation::from((-7, 900));
    assert_eq!(loc.try_set_location((-8, 900)), Err(GridLocationError::InvalidLocation));
    assert_eq!(loc.get_location(), (-7, 900));
    assert_eq!(loc.try_set_location((0, 0)), Ok(()));
    assert_eq!(loc.get_location(), (0, 0));
}
