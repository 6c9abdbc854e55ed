//! The game itself: player state, the movement engine, and the progression
//! controller (maze solved, level-up, timer expiry).
//!
//! Moving onto a non-adjacent or out-of-grid target is `Invalid` and changes
//! nothing. Moving into a wall is `Blocked` and resets the player to the
//! start. Reaching the door with the key in hand is `Won`; the caller then
//! hands fresh randomness to `handle_win`, which regenerates at the same size
//! or, once `(size - 1)^2` mazes are solved, grows the grid by one.

use vstd::prelude::*;
use crate::cell::{Cell, adjacent, cell_index, dir_between, in_bounds, is_adjacent,
    lemma_cell_index_bounds, lemma_cell_index_injective, origin, start_cell};
use crate::layout::{ConfigError, MazeLayout, generate, generated_from, key_fallback};
use crate::reach::empty_bitmap;

verus! {

/// The per-maze time budget, in seconds.
pub const TIME_BUDGET: i32 = 300;

/// Classification of an attempted move.
#[derive(Clone, Copy, PartialEq, Eq, Structural, Debug)]
pub enum MoveOutcome {
    /// The target is not one unit step away (or lies off the grid); nothing
    /// changes.
    Invalid,
    /// A wall stands in the way; the player is reset to the start.
    Blocked,
    /// An ordinary step (including stepping onto the door without the key).
    Moved,
    /// The door was reached with the key in hand.
    Won,
}

/// Where the player stands, which cells were visited, and whether the key is
/// held.
#[derive(Clone)]
pub struct PlayerState {
    pub current_position: Cell,
    pub visited: Vec<bool>,
    pub has_key: bool,
}

impl PlayerState {
    pub open spec fn wf(self, size: int) -> bool {
        &&& self.visited@.len() == size * size
        &&& in_bounds(size, self.current_position)
    }

    /// Whether `c` was visited.
    pub open spec fn visited_at(self, size: int, c: Cell) -> bool {
        self.visited@[cell_index(size, c)]
    }

    /// The start-of-maze state: at the origin, only the origin visited, no
    /// key.
    pub open spec fn is_reset(self, size: int) -> bool {
        &&& self.current_position == origin()
        &&& !self.has_key
        &&& forall|c: Cell| in_bounds(size, c) ==> (self.visited_at(size, c) <==> c == origin())
    }

    pub fn new_at_start(size: usize) -> (p: PlayerState)
        requires
            size >= 1,
            size * size <= usize::MAX,
        ensures
            p.wf(size as int),
            p.is_reset(size as int),
    {
        proof {
            assert(size * size >= 1) by (nonlinear_arith)
                requires
                    size >= 1,
            ;
        }
        let n = size * size;
        let mut visited = empty_bitmap(n);
        let ghost v0 = visited@;
        visited[0] = true;
        let p = PlayerState { current_position: start_cell(), visited, has_key: false };
        proof {
            assert(origin() == Cell { x: 0usize, y: 0usize });
            assert(cell_index(1int, Cell { x: 0usize, y: 0usize }) == 0);
            assert(cell_index(size as int, origin()) == 0);
            assert(p.visited@ == v0.update(0, true));
            assert forall|c: Cell| in_bounds(size as int, c) implies (p.visited_at(size as int, c)
                <==> c == origin()) by {
                lemma_cell_index_bounds(size as int, c);
                if c == origin() {
                    assert(p.visited@[0]);
                } else if cell_index(size as int, c) == 0 {
                    lemma_cell_index_injective(size as int, c, origin());
                    assert(false);
                } else {
                    assert(!v0[cell_index(size as int, c)]);
                    assert(!p.visited@[cell_index(size as int, c)]);
                }
            }
        }
        p
    }
}

/// The whole game: grid size, level, completion counter, the current layout,
/// the player, and the per-maze timer.
#[derive(Clone)]
pub struct MazeGame {
    pub size: usize,
    pub level: usize,
    pub mazes_completed: usize,
    pub layout: MazeLayout,
    pub player: PlayerState,
    pub time_remaining: i32,
    pub last_tick: u64,
}

impl MazeGame {
    pub open spec fn wf(self) -> bool {
        &&& self.layout.wf()
        &&& self.size == self.layout.grid.size
        &&& self.player.wf(self.size as int)
        &&& 0 <= self.time_remaining <= TIME_BUDGET
        &&& self.level >= 1
    }

    /// Whether the proposed target is exactly one unit step away and on the
    /// grid.
    pub open spec fn target_ok(self, x: usize, y: usize) -> bool {
        &&& adjacent(self.player.current_position, Cell { x, y })
        &&& in_bounds(self.size as int, Cell { x, y })
    }

    /// Whether the wall between the player and the (adjacent) target is set.
    pub open spec fn wall_hit(self, x: usize, y: usize) -> bool {
        self.layout.grid.wall_at(
            self.player.current_position,
            dir_between(self.player.current_position, Cell { x, y }),
        )
    }

    /// The size of the next maze: one more than the current size once the
    /// level-up threshold `(size - 1)^2` is reached, else unchanged.
    pub open spec fn next_maze_size(self) -> int {
        if self.mazes_completed >= (self.size - 1) * (self.size - 1) {
            self.size + 1
        } else {
            self.size as int
        }
    }

    /// Exec computation of `next_maze_size`, for callers that must draw the
    /// randomness for the maze that follows a win.
    pub fn next_size(&self) -> (ns: usize)
        requires
            self.wf(),
            self.next_maze_size() <= usize::MAX,
        ensures
            ns as int == self.next_maze_size(),
    {
        proof {
            assert((self.size - 1) * (self.size - 1) <= self.size * self.size) by (nonlinear_arith)
                requires
                    self.size >= 1,
            ;
        }
        let threshold = (self.size - 1) * (self.size - 1);
        if self.mazes_completed >= threshold {
            self.size + 1
        } else {
            self.size
        }
    }

    /// A fresh game on a 2 x 2 grid at level 1. Returns the game and whether
    /// key placement was degraded.
    pub fn new(wall_bits: Vec<bool>, draws: &Vec<Cell>, now: u64) -> (r: (MazeGame, bool))
        requires
            wall_bits@.len() == 16,
            forall|k: int| 0 <= k < draws@.len() ==> in_bounds(2, #[trigger] draws@[k]),
        ensures
            r.0.wf(),
            r.0.size == 2,
            r.0.level == 1,
            r.0.mazes_completed == 0,
            r.0.time_remaining == TIME_BUDGET,
            r.0.last_tick == now,
            r.0.player.is_reset(2),
            generated_from(r.0.layout, r.1, 2, wall_bits@, draws@),
    {
        let result = generate(2, wall_bits, draws);
        match result {
            Result::Ok(pair) => {
                let game = MazeGame {
                    size: 2,
                    level: 1,
                    mazes_completed: 0,
                    layout: pair.0,
                    player: PlayerState::new_at_start(2),
                    time_remaining: TIME_BUDGET,
                    last_tick: now,
                };
                (game, pair.1)
            },
            Result::Err(_) => {
                proof {
                    assert(false);
                }
                (
                    MazeGame {
                        size: 2,
                        level: 1,
                        mazes_completed: 0,
                        layout: MazeLayout {
                            grid: crate::grid::WallGrid { size: 0, walls: Vec::new() },
                            key_position: Cell { x: 1, y: 0 },
                            door_position: Cell { x: 1, y: 1 },
                        },
                        player: PlayerState::new_at_start(2),
                        time_remaining: TIME_BUDGET,
                        last_tick: now,
                    },
                    false,
                )
            },
        }
    }

    /// A game over a caller-built layout (used by embedders and tests that
    /// need a fixed wall configuration).
    pub fn from_layout(layout: MazeLayout, now: u64) -> (g: MazeGame)
        requires
            layout.wf(),
        ensures
            g.wf(),
            g.layout == layout,
            g.size == layout.grid.size,
            g.level == 1,
            g.mazes_completed == 0,
            g.time_remaining == TIME_BUDGET,
            g.last_tick == now,
            g.player.is_reset(layout.grid.size as int),
    {
        let sz = layout.grid.size;
        proof {
            assert(sz * sz <= sz * sz * 4);
        }
        MazeGame {
            size: sz,
            level: 1,
            mazes_completed: 0,
            layout,
            player: PlayerState::new_at_start(sz),
            time_remaining: TIME_BUDGET,
            last_tick: now,
        }
    }

    /// Validates and applies one move.
    ///
    /// `Invalid` leaves the game bit-for-bit unchanged; `Blocked` resets the
    /// player to the start; otherwise the player steps onto the target,
    /// picking up the key when the target is the key cell, and wins exactly
    /// when the target is the door and the key was already held.
    pub fn try_move(&mut self, x: usize, y: usize) -> (r: MoveOutcome)
        requires
            old(self).wf(),
            old(self).mazes_completed < usize::MAX,
        ensures
            final(self).wf(),
            final(self).layout == old(self).layout,
            final(self).size == old(self).size,
            final(self).level == old(self).level,
            final(self).time_remaining == old(self).time_remaining,
            final(self).last_tick == old(self).last_tick,
            (r == MoveOutcome::Invalid) <==> !old(self).target_ok(x, y),
            r == MoveOutcome::Invalid ==> *final(self) == *old(self),
            old(self).target_ok(x, y) && old(self).wall_hit(x, y) ==> r == MoveOutcome::Blocked
                && final(self).player.is_reset(old(self).size as int) && final(self).mazes_completed
                == old(self).mazes_completed,
            old(self).target_ok(x, y) && !old(self).wall_hit(x, y) ==> {
                let target = Cell { x, y };
                &&& final(self).player.current_position == target
                &&& forall|c: Cell|
                    in_bounds(old(self).size as int, c) ==> (final(self).player.visited_at(
                        old(self).size as int,
                        c,
                    ) <==> (old(self).player.visited_at(old(self).size as int, c) || c == target))
                &&& final(self).player.has_key == (old(self).player.has_key || target == old(
                    self,
                ).layout.key_position)
                &&& ((r == MoveOutcome::Won) <==> (target == old(self).layout.door_position && old(
                    self,
                ).player.has_key))
                &&& ((r == MoveOutcome::Moved) <==> !(target == old(self).layout.door_position
                    && old(self).player.has_key))
                &&& (r == MoveOutcome::Won ==> final(self).mazes_completed == old(
                    self,
                ).mazes_completed + 1)
                &&& (r == MoveOutcome::Moved ==> final(self).mazes_completed == old(
                    self,
                ).mazes_completed)
            },
    {
        let target = Cell { x, y };
        let cur = self.player.current_position;
        if !(is_adjacent(cur, target) && x < self.size && y < self.size) {
            return MoveOutcome::Invalid;
        }
        let wi = self.layout.grid.wall_index(cur, target);
        if self.layout.grid.walls[wi] {
            let sz = self.size;
            self.player = PlayerState::new_at_start(sz);
            return MoveOutcome::Blocked;
        }
        self.player.current_position = target;
        proof {
            lemma_cell_index_bounds(self.size as int, target);
        }
        let ghost vb = self.player.visited@;
        let ti = y * self.size + x;
        self.player.visited[ti] = true;
        proof {
            assert forall|c: Cell| in_bounds(self.size as int, c) implies (self.player.visited_at(
                self.size as int,
                c,
            ) <==> (vb[cell_index(self.size as int, c)] || c == target)) by {
                lemma_cell_index_bounds(self.size as int, c);
                if c != target && cell_index(self.size as int, c) == cell_index(
                    self.size as int,
                    target,
                ) {
                    lemma_cell_index_injective(self.size as int, c, target);
                }
            }
        }
        if target == self.layout.key_position {
            self.player.has_key = true;
        }
        if target == self.layout.door_position && self.player.has_key {
            self.mazes_completed = self.mazes_completed + 1;
            return MoveOutcome::Won;
        }
        MoveOutcome::Moved
    }

    /// Handles a `Won` outcome: regenerates at the same size (resetting the
    /// per-maze timer), or — once the completion counter has reached
    /// `(size - 1)^2` — grows the grid and the level and resets the counter.
    /// Returns whether key placement was degraded.
    pub fn handle_win(&mut self, wall_bits: Vec<bool>, draws: &Vec<Cell>, now: u64) -> (degraded:
        bool)
        requires
            old(self).wf(),
            old(self).level < usize::MAX,
            wall_bits@.len() == old(self).next_maze_size() * old(self).next_maze_size() * 4,
            old(self).next_maze_size() * old(self).next_maze_size() * 4 <= usize::MAX,
            forall|k: int|
                0 <= k < draws@.len() ==> in_bounds(old(self).next_maze_size(), #[trigger] draws@[k]),
        ensures
            final(self).wf(),
            final(self).size as int == old(self).next_maze_size(),
            final(self).player.is_reset(final(self).size as int),
            old(self).mazes_completed >= (old(self).size - 1) * (old(self).size - 1) ==> {
                &&& final(self).size == old(self).size + 1
                &&& final(self).level == old(self).level + 1
                &&& final(self).mazes_completed == 0
                &&& final(self).time_remaining == old(self).time_remaining
                &&& final(self).last_tick == old(self).last_tick
            },
            old(self).mazes_completed < (old(self).size - 1) * (old(self).size - 1) ==> {
                &&& final(self).size == old(self).size
                &&& final(self).level == old(self).level
                &&& final(self).mazes_completed == old(self).mazes_completed
                &&& final(self).time_remaining == TIME_BUDGET
                &&& final(self).last_tick == now
            },
            generated_from(
                final(self).layout,
                degraded,
                old(self).next_maze_size(),
                wall_bits@,
                draws@,
            ),
    {
        proof {
            assert((self.size - 1) * (self.size - 1) <= self.size * self.size) by (nonlinear_arith)
                requires
                    self.size >= 1,
            ;
        }
        let threshold = (self.size - 1) * (self.size - 1);
        let leveling = self.mazes_completed >= threshold;
        let ns = if leveling {
            proof {
                assert(self.size + 1 <= (self.size + 1) * (self.size + 1) * 4) by (nonlinear_arith)
                    requires
                        self.size >= 1,
                ;
            }
            self.size + 1
        } else {
            self.size
        };
        let result = generate(ns, wall_bits, draws);
        match result {
            Result::Ok(pair) => {
                if leveling {
                    self.level = self.level + 1;
                    self.mazes_completed = 0;
                } else {
                    self.time_remaining = TIME_BUDGET;
                    self.last_tick = now;
                }
                self.size = ns;
                self.layout = pair.0;
                self.player = PlayerState::new_at_start(ns);
                pair.1
            },
            Result::Err(_) => {
                proof {
                    assert(false);
                }
                false
            },
        }
    }

    /// One timer poll at `now` (seconds). When at least one second has
    /// elapsed since `last_tick`, the budget drops by one; on exhaustion the
    /// maze regenerates at the same size, the player and the timer reset, and
    /// the call reports the expiry. The clock may not run backwards: a caller
    /// whose time source can regress clamps `now` to `last_tick` first.
    pub fn tick(&mut self, now: u64, wall_bits: Vec<bool>, draws: &Vec<Cell>) -> (expired: bool)
        requires
            old(self).wf(),
            now >= old(self).last_tick,
            wall_bits@.len() == old(self).size * old(self).size * 4,
            forall|k: int|
                0 <= k < draws@.len() ==> in_bounds(old(self).size as int, #[trigger] draws@[k]),
        ensures
            final(self).wf(),
            final(self).size == old(self).size,
            final(self).level == old(self).level,
            final(self).mazes_completed == old(self).mazes_completed,
            now == old(self).last_tick ==> *final(self) == *old(self) && !expired,
            now > old(self).last_tick && old(self).time_remaining > 1 ==> {
                &&& !expired
                &&& final(self).time_remaining == old(self).time_remaining - 1
                &&& final(self).last_tick == now
                &&& final(self).layout == old(self).layout
                &&& final(self).player == old(self).player
            },
            now > old(self).last_tick && old(self).time_remaining <= 1 ==> {
                &&& expired
                &&& final(self).time_remaining == TIME_BUDGET
                &&& final(self).last_tick == now
                &&& final(self).player.is_reset(old(self).size as int)
                &&& generated_from(
                    final(self).layout,
                    key_fallback(wall_bits@, old(self).size as int, draws@),
                    old(self).size as int,
                    wall_bits@,
                    draws@,
                )
            },
    {
        if now == self.last_tick {
            return false;
        }
        self.time_remaining = self.time_remaining - 1;
        self.last_tick = now;
        if self.time_remaining <= 0 {
            let sz = self.size;
            let result = generate(sz, wall_bits, draws);
            match result {
                Result::Ok(pair) => {
                    self.layout = pair.0;
                    self.player = PlayerState::new_at_start(sz);
                    self.time_remaining = TIME_BUDGET;
                    return true;
                },
                Result::Err(_) => {
                    proof {
                        assert(false);
                    }
                },
            }
        }
        false
    }

    /// Discards the current maze: regenerates at the same size, resets the
    /// player and the timer. Returns whether key placement was degraded.
    pub fn reset(&mut self, wall_bits: Vec<bool>, draws: &Vec<Cell>, now: u64) -> (degraded: bool)
        requires
            old(self).wf(),
            wall_bits@.len() == old(self).size * old(self).size * 4,
            forall|k: int|
                0 <= k < draws@.len() ==> in_bounds(old(self).size as int, #[trigger] draws@[k]),
        ensures
            final(self).wf(),
            final(self).size == old(self).size,
            final(self).level == old(self).level,
            final(self).mazes_completed == old(self).mazes_completed,
            final(self).time_remaining == TIME_BUDGET,
            final(self).last_tick == now,
            final(self).player.is_reset(old(self).size as int),
            generated_from(final(self).layout, degraded, old(self).size as int, wall_bits@, draws@),
    {
        let sz = self.size;
        let result = generate(sz, wall_bits, draws);
        match result {
            Result::Ok(pair) => {
                self.layout = pair.0;
                self.player = PlayerState::new_at_start(sz);
                self.time_remaining = TIME_BUDGET;
                self.last_tick = now;
                pair.1
            },
            Result::Err(_) => {
                proof {
                    assert(false);
                }
                false
            },
        }
    }
}

/// The level-up trigger: solving a maze while the completion counter is one
/// short of `(size - 1)^2` reaches the threshold exactly, so the win that
/// increments the counter makes `handle_win` grow the grid and reset the
/// counter.
pub proof fn lemma_levelup_trigger(size: int, completed: int)
    requires
        size >= 2,
        completed == (size - 1) * (size - 1) - 1,
    ensures
        completed + 1 >= (size - 1) * (size - 1),
{
}

} // verus!

