use hypr_flight::level::{build_spawn_zones, start_tile, Axis, Level, LevelError, TilePos};

fn t(x: i32, y: i32) -> TilePos {
    TilePos::new(x, y)
}

#[test]
fn first_line_is_the_top_row() {
    let level = Level::from_ascii("#..\n...\n..#");
    assert_eq!(level.width(), 3);
    assert_eq!(level.height(), 3);
    // last line is y = 0
    assert!(level.is_solid(t(2, 0)));
    assert!(!level.is_solid(t(0, 0)));
    // first line is y = 2
    assert!(level.is_solid(t(0, 2)));
    assert!(!level.is_solid(t(2, 2)));
    assert!(!level.is_solid(t(1, 1)));
}

#[test]
fn outside_the_grid_is_solid() {
    let level = Level::from_ascii("..\n..");
    assert!(level.is_solid(t(-1, 0)));
    assert!(level.is_solid(t(0, -1)));
    assert!(level.is_solid(t(2, 0)));
    assert!(level.is_solid(t(0, 2)));
    assert!(level.is_solid(t(i32::MIN, i32::MAX)));
    assert!(!level.is_solid(t(1, 1)));
}

#[test]
fn indented_text_with_blank_lines() {
    let level = Level::from_ascii("\n    ##\n\n    .#\n  ");
    assert_eq!(level.width(), 2);
    assert_eq!(level.height(), 2);
    assert!(level.is_solid(t(0, 1)));
    assert!(!level.is_solid(t(0, 0)));
    assert!(level.is_solid(t(1, 0)));
}

#[test]
fn other_characters_are_open() {
    let level = Level::from_ascii("#x@");
    assert!(level.is_solid(t(0, 0)));
    assert!(!level.is_solid(t(1, 0)));
    assert!(!level.is_solid(t(2, 0)));
}

#[test]
fn width_counts_bytes() {
    // "é" takes two bytes, so the row is 3 bytes wide but has 2 characters;
    // the cell past the last character is open.
    let level = Level::from_ascii("#é\n###");
    assert_eq!(level.width(), 3);
    assert!(level.is_solid(t(0, 1)));
    assert!(!level.is_solid(t(1, 1)));
    assert!(!level.is_solid(t(2, 1)));
}

#[test]
fn empty_level_is_refused() {
    assert_eq!(Level::try_from_ascii("").err(), Some(LevelError::Empty));
    assert_eq!(Level::try_from_ascii("  \n\t\n").err(), Some(LevelError::Empty));
}

#[test]
fn ragged_level_is_refused() {
    assert_eq!(Level::try_from_ascii("##\n#").err(), Some(LevelError::Ragged));
    assert_eq!(Level::try_from_ascii("#\n##").err(), Some(LevelError::Ragged));
}

#[test]
fn start_tile_is_seven_seven() {
    assert_eq!(start_tile(), t(7, 7));
}

#[test]
fn spawn_zones_need_a_clear_five_by_five() {
    let text = "\
#########
#.......#
#.......#
#.......#
#.......#
#.......#
#########";
    let level = Level::from_ascii(text);
    let zones = build_spawn_zones(&level);
    // interior is x 1..=7, y 1..=5; a zone needs two open tiles on every side
    assert_eq!(zones, vec![t(3, 3), t(4, 3), t(5, 3)]);
}

#[test]
fn no_spawn_zone_in_a_corridor() {
    // four tiles wide: nowhere has two open tiles on both sides
    let level = Level::from_ascii("....\n....\n....\n....\n....\n....");
    assert!(build_spawn_zones(&level).is_empty());
}

#[test]
fn edge_of_grid_counts_as_wall_for_spawn_zones() {
    let level = Level::from_ascii(".....\n.....\n.....\n.....\n.....");
    assert_eq!(build_spawn_zones(&level), vec![t(2, 2)]);
}

#[test]
fn solid_tiles_in_a_box_in_row_major_order() {
    let level = Level::from_ascii("#.#\n...\n##.");
    assert_eq!(
        level.solid_tiles_in(t(0, 0), t(2, 2)),
        vec![t(0, 0), t(1, 0), t(0, 2), t(2, 2)]
    );
    // outside the grid counts
    assert_eq!(
        level.solid_tiles_in(t(2, 1), t(3, 1)),
        vec![t(3, 1)]
    );
    assert!(level.solid_tiles_in(t(1, 1), t(0, 0)).is_empty());
}

#[test]
fn clear_along_stops_at_walls() {
    let level = Level::from_ascii("....\n..#.\n....");
    // start (0,0): right, right, up -> (2,1) is solid
    assert!(!level.clear_along(t(0, 0), t(1, 1), &[Axis::X, Axis::X, Axis::Y]));
    // up, up, right, right, right -> stays open
    assert!(level.clear_along(t(0, 0), t(1, 1), &[Axis::Y, Axis::Y, Axis::X, Axis::X, Axis::X]));
    // starting inside a wall is blocked even with no moves
    assert!(!level.clear_along(t(2, 1), t(1, 1), &[]));
    assert!(level.clear_along(t(3, 2), t(-1, -1), &[Axis::Y, Axis::Y]));
    // leaving the grid is blocked
    assert!(!level.clear_along(t(0, 0), t(-1, 1), &[Axis::X]));
}
