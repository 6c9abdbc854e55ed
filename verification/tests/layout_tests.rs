use maze_game::cell::Cell;
use maze_game::grid::WallGrid;
use maze_game::layout::{ConfigError, MazeLayout, generate};
use maze_game::reach::reachable_set;

fn clear_grid(size: usize) -> WallGrid {
    WallGrid::new(size, vec![false; size * size * 4])
}

fn cell(x: usize, y: usize) -> Cell {
    Cell { x, y }
}

#[test]
fn reachable_all_cells_when_clear() {
    let grid = clear_grid(2);
    let reach = reachable_set(&grid, cell(0, 0), None);
    assert_eq!(reach.len(), 4);
    assert!(reach.iter().all(|&b| b));
}

#[test]
fn reachable_set_respects_blocked_cell() {
    let grid = clear_grid(2);
    let reach = reachable_set(&grid, cell(0, 0), Some(cell(1, 0)));
    assert!(reach[0]); // (0,0)
    assert!(!reach[1]); // (1,0) blocked
    assert!(reach[2]); // (0,1)
    assert!(reach[3]); // (1,1), around through (0,1)
}

#[test]
fn reachable_set_respects_walls() {
    let mut walls = vec![false; 16];
    // wall from (0,0) toward (1,0) and its mirror, and from (0,0) toward
    // (0,1) and its mirror: the start is sealed off
    walls[(0 * 2 + 0) * 4 + 1] = true;
    walls[(0 * 2 + 1) * 4 + 3] = true;
    walls[(0 * 2 + 0) * 4 + 2] = true;
    walls[(1 * 2 + 0) * 4 + 0] = true;
    let grid = WallGrid::new(2, walls);
    let reach = reachable_set(&grid, cell(0, 0), None);
    assert!(reach[0]);
    assert!(!reach[1]);
    assert!(!reach[2]);
    assert!(!reach[3]);
}

#[test]
fn placement_first_attempt_when_clear() {
    // All walls clear: any key draw is reachable on the first attempt, any
    // door draw distinct from start and key is accepted on the first attempt.
    let draws = vec![cell(1, 1), cell(0, 1), cell(1, 1)];
    let (layout, degraded) = generate(2, vec![false; 16], &draws).unwrap();
    assert!(!degraded);
    assert_eq!(layout.key_position, cell(0, 1));
    assert_eq!(layout.door_position, cell(1, 1));
}

#[test]
fn generated_layout_invariants() {
    let size = 4;
    let bits: Vec<bool> = (0..size * size * 4).map(|i| i % 3 == 0).collect();
    let draws = vec![
        cell(3, 3),
        cell(2, 1),
        cell(1, 2),
        cell(3, 1),
        cell(0, 3),
        cell(2, 2),
    ];
    let (layout, _degraded) = generate(size, bits, &draws).unwrap();
    let key = layout.key_position;
    let door = layout.door_position;
    assert_ne!(key, cell(0, 0));
    assert_ne!(door, cell(0, 0));
    assert_ne!(door, key);
    assert!(key.x < size && key.y < size);
    assert!(door.x < size && door.y < size);
    // the key is reachable from the start while the door blocks the way
    let reach = reachable_set(&layout.grid, cell(0, 0), Some(door));
    assert!(reach[key.y * size + key.x]);
}

#[test]
fn key_selection_skips_unreachable_draws() {
    // the second draw equals the door candidate, which the flood fill treats
    // as impassable, so the third draw is taken instead
    let draws = vec![cell(1, 1), cell(1, 1), cell(0, 1), cell(1, 0)];
    let (layout, degraded) = generate(2, vec![false; 16], &draws).unwrap();
    assert!(!degraded);
    assert_eq!(layout.key_position, cell(0, 1));
    assert_eq!(layout.door_position, cell(1, 0));
}

#[test]
fn door_falls_back_when_draws_run_out() {
    // two draws only: the door candidate and the accepted key; no door draw
    // is left, so the door takes the deterministic fallback
    let draws = vec![cell(1, 1), cell(0, 1)];
    let (layout, degraded) = generate(2, vec![false; 16], &draws).unwrap();
    assert!(!degraded);
    assert_eq!(layout.key_position, cell(0, 1));
    assert_eq!(layout.door_position, cell(1, 0));
}

#[test]
fn carving_clears_both_sides_of_each_step() {
    // sealed grid, degraded placement: key (1,0), door (1,1); every corridor
    // step must be open from both sides
    let draws: Vec<maze_game::cell::Cell> = (0..13).map(|_| cell(1, 1)).collect();
    let (layout, _degraded) = generate(2, vec![true; 16], &draws).unwrap();
    // start -> key runs right: (0,0) toward (1,0) and (1,0) back toward (0,0)
    assert!(!layout.grid.get_wall(cell(0, 0), 1));
    assert!(!layout.grid.get_wall(cell(1, 0), 3));
    // key -> door runs down: (1,0) toward (1,1) and (1,1) back toward (1,0)
    assert!(!layout.grid.get_wall(cell(1, 0), 2));
    assert!(!layout.grid.get_wall(cell(1, 1), 0));
}

#[test]
fn degraded_generation_falls_back_and_carves() {
    // Every wall set and every key candidate unreachable: placement falls
    // back to (1,0) and the carved corridors still open the way.
    let draws = vec![
        cell(1, 1), // door candidate that blocks the flood fill
        cell(1, 1),
        cell(1, 1),
        cell(1, 1),
        cell(1, 1),
        cell(1, 1),
        cell(1, 1),
        cell(1, 1),
        cell(1, 1),
        cell(1, 1),
        cell(1, 1),
        cell(1, 1), // eleven failing key attempts
        cell(1, 1), // door draw, accepted (not start, not key)
    ];
    let (layout, degraded) = generate(2, vec![true; 16], &draws).unwrap();
    assert!(degraded);
    assert_eq!(layout.key_position, cell(1, 0));
    assert_eq!(layout.door_position, cell(1, 1));
    // corridor start -> key: travel wall cleared on both sides
    assert!(!layout.grid.get_wall(cell(0, 0), 1));
    assert!(!layout.grid.get_wall(cell(1, 0), 3));
    // escape perpendicular to travel (downward, both sides): the corridor is
    // not single file
    assert!(!layout.grid.get_wall(cell(0, 0), 2));
    assert!(!layout.grid.get_wall(cell(0, 1), 0));
    // key cell fully opened toward its in-bounds neighbors
    assert!(!layout.grid.get_wall(cell(1, 0), 2));
    // corridor key -> door: travel wall cleared on both sides
    assert!(!layout.grid.get_wall(cell(1, 1), 0));
    // key still reachable while the door blocks
    let reach = reachable_set(&layout.grid, cell(0, 0), Some(layout.door_position));
    assert!(reach[0 * 2 + 1]);
}

#[test]
fn size_too_small_is_rejected() {
    assert!(matches!(
        generate(1, vec![false; 4], &vec![]),
        Err(ConfigError::SizeTooSmall)
    ));
    assert!(matches!(
        generate(0, vec![], &vec![]),
        Err(ConfigError::SizeTooSmall)
    ));
}

#[test]
fn from_parts_accepts_exactly_valid_layouts() {
    // valid: clear walls, key and door distinct and off the start
    assert!(MazeLayout::from_parts(clear_grid(2), cell(0, 1), cell(1, 1)).is_some());
    // key on the start
    assert!(MazeLayout::from_parts(clear_grid(2), cell(0, 0), cell(1, 1)).is_none());
    // door on the start
    assert!(MazeLayout::from_parts(clear_grid(2), cell(0, 1), cell(0, 0)).is_none());
    // door on the key
    assert!(MazeLayout::from_parts(clear_grid(2), cell(1, 1), cell(1, 1)).is_none());
    // key unreachable once every wall is set
    let sealed = WallGrid::new(2, vec![true; 16]);
    assert!(MazeLayout::from_parts(sealed, cell(1, 1), cell(0, 1)).is_none());
    // key reachable only through the door: rejected, the door blocks the way
    let mut walls = vec![false; 16];
    // seal (0,0) from (0,1): the only route to (0,1) runs through (1,0)/(1,1)
    walls[(0 * 2 + 0) * 4 + 2] = true;
    walls[(1 * 2 + 0) * 4 + 0] = true;
    let grid = WallGrid::new(2, walls);
    assert!(MazeLayout::from_parts(grid, cell(0, 1), cell(1, 1)).is_none());
}

#[test]
fn wall_grid_operations() {
    let mut grid = clear_grid(3);
    assert!(!grid.get_wall(cell(1, 1), 0));
    grid.set_wall(cell(1, 1), 0, true);
    assert!(grid.get_wall(cell(1, 1), 0));
    // wall_index derives the slot from the relative offset
    assert_eq!(grid.wall_index(cell(1, 1), cell(2, 1)), (1 * 3 + 1) * 4 + 1);
    assert_eq!(grid.wall_index(cell(1, 1), cell(0, 1)), (1 * 3 + 1) * 4 + 3);
    assert_eq!(grid.wall_index(cell(1, 1), cell(1, 2)), (1 * 3 + 1) * 4 + 2);
    assert_eq!(grid.wall_index(cell(1, 1), cell(1, 0)), (1 * 3 + 1) * 4 + 0);
    // clear_between opens both sides at once
    let mut sealed = WallGrid::new(3, vec![true; 36]);
    sealed.clear_between(cell(0, 0), cell(1, 0));
    assert!(!sealed.get_wall(cell(0, 0), 1));
    assert!(!sealed.get_wall(cell(1, 0), 3));
    assert!(sealed.get_wall(cell(0, 0), 2));
}
