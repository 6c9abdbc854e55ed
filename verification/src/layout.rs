//! Maze layout generation.
//!
//! `generate` seeds the walls from caller-supplied random bits, picks the key
//! among caller-supplied coordinate draws (rejecting the start and cells that
//! a flood fill cannot reach while the initial door candidate blocks the way,
//! with the documented fallback `(1, 0)` after ten failed attempts), picks the
//! door (rejecting the start and the key, with a deterministic fallback after
//! ten failed attempts, so that door sampling terminates on every input), and
//! carves two-cell-wide corridors start -> key -> door. If the
//! sampled door sits on the first corridor and cuts the key off, the door is
//! relocated off that corridor, so the key is always reachable from the start
//! while the door blocks the way.

use vstd::prelude::*;
use crate::carve::{carve_corridor, cell_open, corridor_escape, corridor_mirror_open, corridor_open,
    lemma_corridor_preserved, lemma_corridor_reachable, lemma_lpath, lemma_lpath_shape, lpath};
use crate::cell::{Cell, in_bounds, lemma_cell_index_bounds, lemma_slot_index_bounds, origin,
    slot_index, start_cell};
use crate::grid::WallGrid;
use crate::reach::{reachable, reachable_set};

verus! {

/// Rejected configuration: a maze needs at least a 2 x 2 grid, since the
/// single cell of a 1 x 1 grid can hold neither a key nor a door apart from
/// the start.
#[derive(Clone, Copy, PartialEq, Eq, Structural, Debug)]
pub enum ConfigError {
    SizeTooSmall,
}

/// A generated maze: walls plus key and door placement.
#[derive(Clone)]
pub struct MazeLayout {
    pub grid: WallGrid,
    pub key_position: Cell,
    pub door_position: Cell,
}

impl MazeLayout {
    /// The layout invariants: key and door are in bounds, distinct from the
    /// start and from each other, and the key is reachable from the start
    /// while the door is treated as impassable.
    pub open spec fn wf(self) -> bool {
        &&& self.grid.wf()
        &&& self.grid.size >= 2
        &&& in_bounds(self.grid.size as int, self.key_position)
        &&& in_bounds(self.grid.size as int, self.door_position)
        &&& self.key_position != origin()
        &&& self.door_position != origin()
        &&& self.door_position != self.key_position
        &&& reachable(
            self.grid.walls@,
            self.grid.size as int,
            Some(self.door_position),
            origin(),
            self.key_position,
        )
    }

    /// Builds a layout from explicit parts, accepting it exactly when the
    /// layout invariants hold (the reachability check runs a flood fill).
    pub fn from_parts(grid: WallGrid, key_position: Cell, door_position: Cell) -> (r: Option<
        MazeLayout,
    >)
        requires
            grid.wf(),
        ensures
            r is Some <==> (MazeLayout { grid, key_position, door_position }).wf(),
            r is Some ==> r == Some(MazeLayout { grid, key_position, door_position }),
    {
        if grid.size < 2 {
            return None;
        }
        if !(key_position.x < grid.size && key_position.y < grid.size) {
            return None;
        }
        if !(door_position.x < grid.size && door_position.y < grid.size) {
            return None;
        }
        if key_position.x == 0 && key_position.y == 0 {
            return None;
        }
        if door_position.x == 0 && door_position.y == 0 {
            return None;
        }
        if door_position.x == key_position.x && door_position.y == key_position.y {
            return None;
        }
        let start = start_cell();
        let reach = reachable_set(&grid, start, Some(door_position));
        proof {
            lemma_cell_index_bounds(grid.size as int, key_position);
        }
        let ki = key_position.y * grid.size + key_position.x;
        if reach[ki] {
            Some(MazeLayout { grid, key_position, door_position })
        } else {
            None
        }
    }
}

/// Whether a drawn cell is an acceptable key: off the start, and reachable
/// from the start over the raw random walls while the initial door candidate
/// blocks the way.
pub open spec fn key_draw_ok(bits: Seq<bool>, size: int, door_cand: Cell, c: Cell) -> bool {
    c != origin() && reachable(bits, size, Some(door_cand), origin(), c)
}

/// The initial door candidate: the first draw, when there is one.
pub open spec fn door_candidate(draws: Seq<Cell>) -> Cell {
    if draws.len() > 0 {
        draws[0]
    } else {
        origin()
    }
}

/// Whether every key draw in the eleven-attempt window fails: no draw among
/// `draws[1..12]` is an acceptable key. Exactly then generation is degraded
/// and the key falls back to `(1, 0)`.
pub open spec fn key_fallback(bits: Seq<bool>, size: int, draws: Seq<Cell>) -> bool {
    forall|j: int|
        1 <= j < draws.len() && j < 12 ==> !key_draw_ok(
            bits,
            size,
            door_candidate(draws),
            #[trigger] draws[j],
        )
}

/// The index at which the key search stops: the first index in
/// `draws[1..12]` holding an acceptable key, else the end of that window.
pub open spec fn first_key_index(bits: Seq<bool>, size: int, draws: Seq<Cell>, j: int) -> int
    decreases 12 - j,
{
    if j >= draws.len() || j >= 12 {
        j
    } else if key_draw_ok(bits, size, door_candidate(draws), draws[j]) {
        j
    } else {
        first_key_index(bits, size, draws, j + 1)
    }
}

/// The deterministic door fallback: an in-bounds cell off the start and off
/// the key.
pub open spec fn door_fallback(key: Cell) -> Cell {
    if key == (Cell { x: 1, y: 0 }) {
        Cell { x: 0, y: 1 }
    } else {
        Cell { x: 1, y: 0 }
    }
}

/// The door the sampling pass picks, scanning up to ten draws from index `j`
/// (with `tries` already spent): the first that is neither the start nor the
/// key, else the deterministic fallback.
pub open spec fn door_pick(draws: Seq<Cell>, key: Cell, j: int, tries: int) -> Cell
    decreases 10 - tries,
{
    if tries >= 10 || j >= draws.len() {
        door_fallback(key)
    } else if draws[j] != origin() && draws[j] != key {
        draws[j]
    } else {
        door_pick(draws, key, j + 1, tries + 1)
    }
}

/// Where door sampling starts: right after the draw the key search stopped
/// on (or where it stopped, when the window was exhausted).
pub open spec fn door_search_start(bits: Seq<bool>, size: int, draws: Seq<Cell>) -> int {
    if key_fallback(bits, size, draws) {
        first_key_index(bits, size, draws, 1)
    } else {
        first_key_index(bits, size, draws, 1) + 1
    }
}

/// The cell the door is relocated to when the sampled door cut the key off:
/// off the start row and off the key column, so off the first corridor.
pub open spec fn door_relocated(key: Cell) -> Cell {
    Cell {
        x: if key.x == 0 {
            1usize
        } else {
            0usize
        },
        y: 1usize,
    }
}

/// What a layout regenerated from the given random wall bits and coordinate
/// draws looks like: the layout invariants at this size; both corridors open
/// on both sides of every step wall, escape-cleared, with fully opened
/// endpoints; every remaining wall taken from `bits`; the key the first
/// acceptable draw within the eleven-attempt window, or `(1, 0)` with
/// `degraded` set exactly when the whole window fails; the door exactly what
/// the sampling pass picks from the draws that follow, unless it cut the key
/// off and was relocated off the first corridor.
pub open spec fn generated_from(
    lay: MazeLayout,
    degraded: bool,
    size: int,
    bits: Seq<bool>,
    draws: Seq<Cell>,
) -> bool {
    &&& lay.wf()
    &&& lay.grid.size == size
    &&& corridor_open(lay.grid.walls@, size, origin(), lay.key_position)
    &&& corridor_mirror_open(lay.grid.walls@, size, origin(), lay.key_position)
    &&& corridor_escape(lay.grid.walls@, size, origin(), lay.key_position)
    &&& corridor_open(lay.grid.walls@, size, lay.key_position, lay.door_position)
    &&& corridor_mirror_open(lay.grid.walls@, size, lay.key_position, lay.door_position)
    &&& corridor_escape(lay.grid.walls@, size, lay.key_position, lay.door_position)
    &&& cell_open(lay.grid.walls@, size, lay.key_position)
    &&& cell_open(lay.grid.walls@, size, lay.door_position)
    &&& forall|i: int| 0 <= i < lay.grid.walls@.len() && #[trigger] lay.grid.walls@[i] ==> bits[i]
    &&& (degraded <==> key_fallback(bits, size, draws))
    &&& (degraded ==> lay.key_position == Cell { x: 1, y: 0 })
    &&& (!degraded ==> exists|k: int|
        {
            &&& 1 <= k < draws.len()
            &&& k < 12
            &&& lay.key_position == #[trigger] draws[k]
            &&& key_draw_ok(bits, size, door_candidate(draws), draws[k])
            &&& forall|j: int|
                1 <= j < k ==> !key_draw_ok(bits, size, door_candidate(draws), #[trigger] draws[j])
        })
    &&& (lay.door_position == door_pick(draws, lay.key_position, door_search_start(bits, size, draws), 0)
        || lay.door_position == door_relocated(lay.key_position))
}

/// Picks the key: the first draw among `draws[1..]`, eleven attempts at most,
/// that is off the start and flood-reachable while the initial door candidate
/// blocks the way; `(1, 0)` with the degraded flag set when the whole window
/// fails. Also returns the index of the first unexamined draw, where door
/// selection resumes.
fn select_key(grid: &WallGrid, draws: &Vec<Cell>) -> (r: (Cell, bool, usize))
    requires
        grid.wf(),
        grid.size >= 2,
        forall|k: int|
            0 <= k < draws@.len() ==> in_bounds(grid.size as int, #[trigger] draws@[k]),
    ensures
        in_bounds(grid.size as int, r.0),
        r.0 != origin(),
        r.1 <==> key_fallback(grid.walls@, grid.size as int, draws@),
        r.1 ==> r.0 == (Cell { x: 1, y: 0 }),
        !r.1 ==> (exists|k: int|
            {
                &&& 1 <= k < draws@.len()
                &&& k < 12
                &&& r.0 == #[trigger] draws@[k]
                &&& key_draw_ok(grid.walls@, grid.size as int, door_candidate(draws@), draws@[k])
                &&& forall|j: int|
                    1 <= j < k ==> !key_draw_ok(
                        grid.walls@,
                        grid.size as int,
                        door_candidate(draws@),
                        #[trigger] draws@[j],
                    )
            }),
        1 <= r.2 <= draws@.len() || draws@.len() == 0,
        r.2 as int == door_search_start(grid.walls@, grid.size as int, draws@),
{
    let size = grid.size;
    let ghost bits0 = grid.walls@;
    let start = start_cell();
    let door_cand: Cell = if draws.len() > 0 {
        draws[0]
    } else {
        Cell { x: 0, y: 0 }
    };
    let mut di: usize = 1;
    let mut key = Cell { x: 1, y: 0 };
    let mut found: bool = false;
    let mut attempts: usize = 0;
    while !found && attempts <= 10 && di < draws.len()
        invariant
            grid.wf(),
            grid.size == size,
            size >= 2,
            grid.walls@ == bits0,
            start == origin(),
            door_cand == door_candidate(draws@),
            in_bounds(size as int, door_cand),
            forall|k: int| 0 <= k < draws@.len() ==> in_bounds(size as int, #[trigger] draws@[k]),
            1 <= di <= draws@.len() || draws@.len() == 0,
            attempts + 1 == di,
            di <= 12,
            !found ==> key == (Cell { x: 1, y: 0 }),
            !found ==> forall|j: int|
                1 <= j < di ==> !key_draw_ok(bits0, size as int, door_cand, #[trigger] draws@[j]),
            !found ==> first_key_index(bits0, size as int, draws@, 1) == first_key_index(
                bits0,
                size as int,
                draws@,
                di as int,
            ),
            found ==> di as int == first_key_index(bits0, size as int, draws@, 1) + 1,
            found ==> in_bounds(size as int, key) && key != origin(),
            found ==> exists|k: int|
                {
                    &&& 1 <= k < draws@.len()
                    &&& k < 12
                    &&& key == #[trigger] draws@[k]
                    &&& key_draw_ok(bits0, size as int, door_cand, draws@[k])
                    &&& forall|j: int|
                        1 <= j < k ==> !key_draw_ok(bits0, size as int, door_cand, #[trigger] draws@[j])
                },
        decreases draws@.len() - di,
    {
        let cand = draws[di];
        let ghost cand_idx = di as int;
        di = di + 1;
        if !(cand.x == 0 && cand.y == 0) {
            let reach = reachable_set(grid, start, Some(door_cand));
            proof {
                lemma_cell_index_bounds(size as int, cand);
            }
            let ci = cand.y * size + cand.x;
            if reach[ci] {
                key = cand;
                found = true;
                proof {
                    assert(1 <= cand_idx < draws@.len() && key == draws@[cand_idx]);
                    assert(key_draw_ok(bits0, size as int, door_cand, draws@[cand_idx]));
                }
            } else {
                proof {
                    assert(!reachable(bits0, size as int, Some(door_cand), origin(), cand));
                    assert(!key_draw_ok(bits0, size as int, door_cand, draws@[cand_idx]));
                }
            }
        } else {
            proof {
                assert(cand == origin());
                assert(!key_draw_ok(bits0, size as int, door_cand, draws@[cand_idx]));
            }
        }
        attempts = attempts + 1;
    }
    proof {
        if !found {
            assert(di >= draws@.len() || di == 12);
            assert(key_fallback(bits0, size as int, draws@));
        } else {
            if key_fallback(bits0, size as int, draws@) {
                let k = choose|k: int|
                    {
                        &&& 1 <= k < draws@.len()
                        &&& k < 12
                        &&& key == #[trigger] draws@[k]
                        &&& key_draw_ok(bits0, size as int, door_cand, draws@[k])
                        &&& forall|j: int|
                            1 <= j < k ==> !key_draw_ok(
                                bits0,
                                size as int,
                                door_cand,
                                #[trigger] draws@[j],
                            )
                    };
                assert(!key_draw_ok(bits0, size as int, door_cand, draws@[k]));
                assert(false);
            }
        }
    }
    (key, !found, di)
}

/// Picks the door: the first of up to ten further draws that is neither the
/// start nor the key, else a deterministic in-bounds fallback off both.
fn select_door(size: usize, key: Cell, draws: &Vec<Cell>, start_di: usize) -> (door: Cell)
    requires
        size >= 2,
        forall|k: int| 0 <= k < draws@.len() ==> in_bounds(size as int, #[trigger] draws@[k]),
        1 <= start_di || draws@.len() == 0,
    ensures
        in_bounds(size as int, door),
        door != origin(),
        door != key,
        door == door_pick(draws@, key, start_di as int, 0),
{
    let mut door: Cell = if key.x == 1 && key.y == 0 {
        Cell { x: 0, y: 1 }
    } else {
        Cell { x: 1, y: 0 }
    };
    let mut di: usize = start_di;
    let mut dfound: bool = false;
    let mut dtries: usize = 0;
    while !dfound && dtries < 10 && di < draws.len()
        invariant
            size >= 2,
            forall|k: int| 0 <= k < draws@.len() ==> in_bounds(size as int, #[trigger] draws@[k]),
            1 <= di || draws@.len() == 0,
            dtries <= 10,
            in_bounds(size as int, door),
            door != origin(),
            door != key,
            dfound ==> door == door_pick(draws@, key, start_di as int, 0),
            !dfound ==> door == door_fallback(key),
            !dfound ==> door_pick(draws@, key, start_di as int, 0) == door_pick(
                draws@,
                key,
                di as int,
                dtries as int,
            ),
        decreases draws@.len() - di,
    {
        let cand = draws[di];
        let ghost cand_idx = di as int;
        di = di + 1;
        if !(cand.x == 0 && cand.y == 0) && !(cand.x == key.x && cand.y == key.y) {
            door = cand;
            dfound = true;
            proof {
                assert(1 <= cand_idx < draws@.len() && door == draws@[cand_idx]);
            }
        }
        dtries = dtries + 1;
    }
    door
}

/// Generates a maze of the given size from random wall bits and coordinate
/// draws. Returns the layout and whether the key placement fell back to the
/// default cell `(1, 0)` after exhausting its attempts (degraded generation,
/// observable but not fatal).
///
/// The key is the first acceptable draw among `draws[1..]`, eleven attempts
/// at most; the door is a later draw, or a deterministic in-bounds fallback.
#[verifier::rlimit(100)]
#[verifier::spinoff_prover]
pub fn generate(size: usize, wall_bits: Vec<bool>, draws: &Vec<Cell>) -> (r: Result<
    (MazeLayout, bool),
    ConfigError,
>)
    requires
        wall_bits@.len() == size * size * 4,
        size * size * 4 <= usize::MAX,
        forall|k: int| 0 <= k < draws@.len() ==> in_bounds(size as int, #[trigger] draws@[k]),
    ensures
        r is Err <==> size < 2,
        r is Err ==> r->Err_0 == ConfigError::SizeTooSmall,
        r is Ok ==> generated_from(r->Ok_0.0, r->Ok_0.1, size as int, wall_bits@, draws@),
{
    if size < 2 {
        return Err(ConfigError::SizeTooSmall);
    }
    let mut grid = WallGrid::new(size, wall_bits);
    let picked = select_key(&grid, draws);
    let key = picked.0;
    let degraded = picked.1;
    let door = select_door(size, key, draws, picked.2);
    let door = carve_and_secure(&mut grid, key, door);
    let layout = MazeLayout { grid, key_position: key, door_position: door };
    Ok((layout, degraded))
}

/// Carves the two corridors and, when the sampled door sits on the first one
/// and cuts the key off, relocates the door off that corridor and carves
/// toward it instead, so the key is always reachable from the start while the
/// door blocks the way. Returns the final door.
#[verifier::rlimit(100)]
#[verifier::spinoff_prover]
fn carve_and_secure(grid: &mut WallGrid, key: Cell, door: Cell) -> (d: Cell)
    requires
        old(grid).wf(),
        old(grid).size >= 2,
        in_bounds(old(grid).size as int, key),
        in_bounds(old(grid).size as int, door),
        key != origin(),
        door != origin(),
        door != key,
    ensures
        final(grid).wf(),
        final(grid).size == old(grid).size,
        forall|i: int|
            0 <= i < final(grid).walls@.len() && #[trigger] final(grid).walls@[i] ==> old(
                grid,
            ).walls@[i],
        in_bounds(final(grid).size as int, d),
        d != origin(),
        d != key,
        d == door || d == door_relocated(key),
        corridor_open(final(grid).walls@, final(grid).size as int, origin(), key),
        corridor_mirror_open(final(grid).walls@, final(grid).size as int, origin(), key),
        corridor_escape(final(grid).walls@, final(grid).size as int, origin(), key),
        corridor_open(final(grid).walls@, final(grid).size as int, key, d),
        corridor_mirror_open(final(grid).walls@, final(grid).size as int, key, d),
        corridor_escape(final(grid).walls@, final(grid).size as int, key, d),
        cell_open(final(grid).walls@, final(grid).size as int, key),
        cell_open(final(grid).walls@, final(grid).size as int, d),
        reachable(final(grid).walls@, final(grid).size as int, Some(d), origin(), key),
{
    let size = grid.size;
    let start = start_cell();
    let mut door = door;
    proof {
        assert forall|c: Cell, d: int| in_bounds(size as int, c) && 0 <= d < 4 implies 0
            <= #[trigger] slot_index(size as int, c, d) < grid.walls@.len() by {
            lemma_slot_index_bounds(size as int, c, d);
        }
    }
    carve_corridor(grid, start, key);
    let ghost w1 = grid.walls@;
    carve_corridor(grid, key, door);
    proof {
        lemma_corridor_preserved(w1, grid.walls@, size as int, origin(), key);
    }
    let reach = reachable_set(grid, start, Some(door));
    proof {
        lemma_cell_index_bounds(size as int, key);
    }
    let ki = key.y * size + key.x;
    if !reach[ki] {
        // the sampled door sits on the first corridor and cuts the key off;
        // relocate it off that corridor
        door = Cell {
            x: if key.x == 0 {
                1
            } else {
                0
            },
            y: 1,
        };
        let ghost w2 = grid.walls@;
        carve_corridor(grid, key, door);
        proof {
            lemma_corridor_preserved(w2, grid.walls@, size as int, origin(), key);
            lemma_lpath(origin(), key);
            lemma_lpath_shape(size as int, origin(), key);
            assert forall|k: int| 1 <= k < lpath(origin(), key).len() implies Some(
                #[trigger] lpath(origin(), key)[k],
            ) != Some(door) by {
                assert(lpath(origin(), key)[k].y == 0 || lpath(origin(), key)[k].x == key.x);
            }
            lemma_corridor_reachable(grid.walls@, size as int, Some(door), origin(), key);
        }
    }
    door
}

} // verus!
