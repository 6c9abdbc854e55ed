use maze_game::cell::Cell;
use maze_game::grid::WallGrid;
use maze_game::game::{MazeGame, MoveOutcome, TIME_BUDGET};
use maze_game::layout::MazeLayout;

fn cell(x: usize, y: usize) -> Cell {
    Cell { x, y }
}

/// A 2x2 game over fully cleared walls with the given key and door.
fn clear_game(key: Cell, door: Cell) -> MazeGame {
    let grid = WallGrid::new(2, vec![false; 16]);
    let layout = MazeLayout::from_parts(grid, key, door).unwrap();
    MazeGame::from_layout(layout, 100)
}

fn assert_player_reset(game: &MazeGame) {
    assert_eq!(game.player.current_position, cell(0, 0));
    assert!(!game.player.has_key);
    let size = game.size;
    for y in 0..size {
        for x in 0..size {
            assert_eq!(game.player.visited[y * size + x], x == 0 && y == 0);
        }
    }
}

#[test]
fn invalid_move_leaves_state_unchanged() {
    let mut game = clear_game(cell(0, 1), cell(1, 1));
    // diagonal target
    assert_eq!(game.try_move(1, 1), MoveOutcome::Invalid);
    // the player's own cell
    assert_eq!(game.try_move(0, 0), MoveOutcome::Invalid);
    // far-away target
    assert_eq!(game.try_move(7, 0), MoveOutcome::Invalid);
    assert_eq!(game.player.current_position, cell(0, 0));
    assert!(!game.player.has_key);
    assert_eq!(game.mazes_completed, 0);
    assert_eq!(game.time_remaining, TIME_BUDGET);
    assert_player_reset(&game);
}

#[test]
fn adjacent_but_off_grid_is_invalid() {
    let mut game = clear_game(cell(0, 1), cell(1, 1));
    let r1 = game.try_move(1, 0);
    assert_eq!(r1, MoveOutcome::Moved);
    // (2,0) is one step right of (1,0) but off the 2x2 grid
    assert_eq!(game.try_move(2, 0), MoveOutcome::Invalid);
    assert_eq!(game.player.current_position, cell(1, 0));
}

#[test]
fn blocked_wall_resets_position() {
    // wall between (0,0) and (1,0) set; target (1,0) is refused and the
    // player is reset to the start
    let mut walls = vec![false; 16];
    walls[(0 * 2 + 0) * 4 + 1] = true;
    let grid = WallGrid::new(2, walls);
    let layout = MazeLayout::from_parts(grid, cell(0, 1), cell(1, 1)).unwrap();
    let mut game = MazeGame::from_layout(layout, 100);
    assert_eq!(game.try_move(1, 0), MoveOutcome::Blocked);
    assert_player_reset(&game);
}

#[test]
fn wall_collision_discards_progress() {
    // progress first, then hit a wall: position, visited set and key are all
    // reset
    let mut walls = vec![false; 16];
    // wall from (0,1) toward (1,1)
    walls[(1 * 2 + 0) * 4 + 1] = true;
    let grid = WallGrid::new(2, walls);
    let layout = MazeLayout::from_parts(grid, cell(0, 1), cell(1, 1)).unwrap();
    let mut game = MazeGame::from_layout(layout, 100);
    assert_eq!(game.try_move(0, 1), MoveOutcome::Moved);
    assert!(game.player.has_key); // stepped onto the key
    assert_eq!(game.try_move(1, 1), MoveOutcome::Blocked);
    assert_player_reset(&game);
    assert_eq!(game.mazes_completed, 0);
}

#[test]
fn door_without_key_is_an_ordinary_move() {
    let mut game = clear_game(cell(1, 1), cell(0, 1));
    // step onto the door without the key: inert
    assert_eq!(game.try_move(0, 1), MoveOutcome::Moved);
    assert!(!game.player.has_key);
    assert_eq!(game.mazes_completed, 0);
    assert_eq!(game.player.current_position, cell(0, 1));
}

#[test]
fn win_requires_key_at_door() {
    let mut game = clear_game(cell(1, 0), cell(0, 1));
    assert_eq!(game.try_move(1, 0), MoveOutcome::Moved);
    assert!(game.player.has_key);
    assert_eq!(game.try_move(1, 1), MoveOutcome::Moved);
    let r = game.try_move(0, 1);
    assert_eq!(r, MoveOutcome::Won);
    assert_eq!(game.mazes_completed, 1);
    // visited tracked every step
    assert!(game.player.visited[0]);
    assert!(game.player.visited[1]);
    assert!(game.player.visited[2]);
    assert!(game.player.visited[3]);
}

#[test]
fn levelup_at_threshold() {
    // size 2: the threshold is (2-1)^2 = 1, so the first win levels up
    let mut game = clear_game(cell(1, 0), cell(1, 1));
    assert_eq!(game.try_move(1, 0), MoveOutcome::Moved);
    assert_eq!(game.try_move(1, 1), MoveOutcome::Won);
    assert_eq!(game.mazes_completed, 1);
    let bits = vec![false; 3 * 3 * 4];
    let draws = vec![cell(2, 2), cell(1, 2), cell(2, 1)];
    game.handle_win(bits, &draws, 200);
    assert_eq!(game.size, 3);
    assert_eq!(game.level, 2);
    assert_eq!(game.mazes_completed, 0);
    assert_eq!(game.layout.grid.size, 3);
    assert_player_reset(&game);
}

#[test]
fn win_below_threshold_keeps_size_and_resets_timer() {
    // size 3: threshold is 4; a single win regenerates at the same size
    let grid = WallGrid::new(3, vec![false; 36]);
    let layout = MazeLayout::from_parts(grid, cell(1, 0), cell(2, 2)).unwrap();
    let mut game = MazeGame::from_layout(layout, 100);
    assert_eq!(game.try_move(1, 0), MoveOutcome::Moved);
    assert!(game.player.has_key);
    game.time_remaining = 17;
    game.mazes_completed = 1;
    let bits = vec![false; 36];
    let draws = vec![cell(2, 2), cell(1, 2), cell(2, 1)];
    game.handle_win(bits, &draws, 555);
    assert_eq!(game.size, 3);
    assert_eq!(game.level, 1);
    assert_eq!(game.mazes_completed, 1);
    assert_eq!(game.time_remaining, TIME_BUDGET);
    assert_eq!(game.last_tick, 555);
    assert_player_reset(&game);
}

#[test]
fn tick_counts_down_and_expires() {
    let mut game = clear_game(cell(0, 1), cell(1, 1));
    let bits = vec![false; 16];
    let draws = vec![cell(1, 1), cell(0, 1), cell(1, 1)];
    // same second: nothing happens
    assert!(!game.tick(100, bits.clone(), &draws));
    assert_eq!(game.time_remaining, TIME_BUDGET);
    assert_eq!(game.last_tick, 100);
    // one second later: one unit burned
    assert!(!game.tick(101, bits.clone(), &draws));
    assert_eq!(game.time_remaining, TIME_BUDGET - 1);
    assert_eq!(game.last_tick, 101);
    // budget exhausted: the maze regenerates, the timer and player reset
    game.time_remaining = 1;
    assert_eq!(game.try_move(0, 1), MoveOutcome::Moved);
    assert!(game.tick(102, bits.clone(), &draws));
    assert_eq!(game.time_remaining, TIME_BUDGET);
    assert_eq!(game.last_tick, 102);
    assert_eq!(game.level, 1);
    assert_eq!(game.mazes_completed, 0);
    assert_player_reset(&game);
}

#[test]
fn reset_regenerates_at_same_size() {
    let mut game = clear_game(cell(0, 1), cell(1, 1));
    assert_eq!(game.try_move(0, 1), MoveOutcome::Moved);
    game.time_remaining = 42;
    let bits = vec![true; 16];
    let draws = vec![cell(1, 1), cell(0, 1), cell(1, 1)];
    game.reset(bits, &draws, 900);
    assert_eq!(game.size, 2);
    assert_eq!(game.time_remaining, TIME_BUDGET);
    assert_eq!(game.last_tick, 900);
    assert_player_reset(&game);
}

#[test]
fn new_game_starts_at_level_one() {
    let draws = vec![cell(1, 1), cell(0, 1), cell(1, 1)];
    let (game, degraded) = MazeGame::new(vec![false; 16], &draws, 7);
    assert!(!degraded);
    assert_eq!(game.size, 2);
    assert_eq!(game.level, 1);
    assert_eq!(game.mazes_completed, 0);
    assert_eq!(game.time_remaining, TIME_BUDGET);
    assert_eq!(game.last_tick, 7);
    assert_player_reset(&game);
}
