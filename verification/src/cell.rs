//! Grid coordinates, the four cardinal directions, and the indexing scheme
//! that maps a cell and a direction to a wall slot.
//!
//! A `size x size` grid stores `size * size * 4` wall flags; cell `(x, y)`
//! owns the four slots at base `(y * size + x) * 4`, ordered
//! `[top, right, bottom, left]` (directions `0..4`).

use vstd::prelude::*;

verus! {

/// A grid position; `x` grows rightward, `y` grows downward.
#[derive(Clone, Copy, PartialEq, Eq, Structural, Debug)]
pub struct Cell {
    pub x: usize,
    pub y: usize,
}

/// The start cell `(0, 0)`.
pub open spec fn origin() -> Cell {
    Cell { x: 0, y: 0 }
}

/// Exec constructor for the start cell.
pub fn start_cell() -> (c: Cell)
    ensures
        c == origin(),
{
    Cell { x: 0, y: 0 }
}

pub open spec fn in_bounds(size: int, c: Cell) -> bool {
    c.x < size && c.y < size
}

/// Row-major index of a cell in a `size * size` bitmap.
pub open spec fn cell_index(size: int, c: Cell) -> int {
    c.y * size + c.x
}

/// Index of the wall slot of cell `c` in direction `dir` (0 top, 1 right,
/// 2 bottom, 3 left).
pub open spec fn slot_index(size: int, c: Cell, dir: int) -> int {
    (c.y * size + c.x) * 4 + dir
}

/// Whether the neighbor of `c` in direction `dir` exists on the grid.
pub open spec fn has_neighbor(size: int, c: Cell, dir: int) -> bool {
    in_bounds(size, c) && if dir == 0 {
        c.y >= 1
    } else if dir == 1 {
        c.x + 1 < size
    } else if dir == 2 {
        c.y + 1 < size
    } else {
        c.x >= 1
    }
}

/// The neighbor of `c` in direction `dir`; meaningful only when
/// `has_neighbor` holds.
pub open spec fn neighbor(c: Cell, dir: int) -> Cell {
    if dir == 0 {
        Cell { x: c.x, y: (c.y - 1) as usize }
    } else if dir == 1 {
        Cell { x: (c.x + 1) as usize, y: c.y }
    } else if dir == 2 {
        Cell { x: c.x, y: (c.y + 1) as usize }
    } else {
        Cell { x: (c.x - 1) as usize, y: c.y }
    }
}

/// The direction opposite to `dir`.
pub open spec fn opposite(dir: int) -> int {
    if dir == 0 {
        2
    } else if dir == 1 {
        3
    } else if dir == 2 {
        0
    } else {
        1
    }
}

/// Two cells at Manhattan distance exactly one.
pub open spec fn adjacent(a: Cell, b: Cell) -> bool {
    (a.y == b.y && (a.x + 1 == b.x || b.x + 1 == a.x)) || (a.x == b.x && (a.y + 1 == b.y
        || b.y + 1 == a.y))
}

/// The direction from `a` toward an adjacent cell `b`.
pub open spec fn dir_between(a: Cell, b: Cell) -> int {
    if a.y == b.y && a.x + 1 == b.x {
        1
    } else if a.y == b.y && b.x + 1 == a.x {
        3
    } else if a.x == b.x && a.y + 1 == b.y {
        2
    } else {
        0
    }
}

pub proof fn lemma_adjacent_dir(size: int, a: Cell, b: Cell)
    requires
        adjacent(a, b),
        in_bounds(size, a),
        in_bounds(size, b),
    ensures
        0 <= dir_between(a, b) < 4,
        has_neighbor(size, a, dir_between(a, b)),
        neighbor(a, dir_between(a, b)) == b,
        adjacent(b, a),
        dir_between(b, a) == opposite(dir_between(a, b)),
{
}

pub proof fn lemma_neighbor_props(size: int, c: Cell, dir: int)
    requires
        0 <= dir < 4,
        size <= usize::MAX,
        has_neighbor(size, c, dir),
    ensures
        in_bounds(size, neighbor(c, dir)),
        adjacent(c, neighbor(c, dir)),
        dir_between(c, neighbor(c, dir)) == dir,
{
}

pub proof fn lemma_cell_index_bounds(size: int, c: Cell)
    requires
        in_bounds(size, c),
    ensures
        0 <= cell_index(size, c) < size * size,
{
    assert(c.y * size + c.x < size * size) by (nonlinear_arith)
        requires
            0 <= c.x < size,
            0 <= c.y < size,
    ;
}

pub proof fn lemma_cell_index_injective(size: int, a: Cell, b: Cell)
    requires
        in_bounds(size, a),
        in_bounds(size, b),
        cell_index(size, a) == cell_index(size, b),
    ensures
        a == b,
{
    assert(a.x == b.x && a.y == b.y) by (nonlinear_arith)
        requires
            0 <= a.x < size,
            0 <= a.y < size,
            0 <= b.x < size,
            0 <= b.y < size,
            a.y * size + a.x == b.y * size + b.x,
    ;
}

pub proof fn lemma_slot_index_bounds(size: int, c: Cell, dir: int)
    requires
        in_bounds(size, c),
        0 <= dir < 4,
    ensures
        0 <= slot_index(size, c, dir) < size * size * 4,
        slot_index(size, c, dir) == cell_index(size, c) * 4 + dir,
{
    lemma_cell_index_bounds(size, c);
}

/// The in-bounds neighbor of `c` in direction `dir`, if it exists.
pub fn step_target(size: usize, c: Cell, dir: usize) -> (r: Option<Cell>)
    requires
        in_bounds(size as int, c),
        dir < 4,
    ensures
        has_neighbor(size as int, c, dir as int) ==> r == Some(neighbor(c, dir as int)),
        !has_neighbor(size as int, c, dir as int) ==> r is None,
{
    if dir == 0 {
        if c.y >= 1 {
            Some(Cell { x: c.x, y: c.y - 1 })
        } else {
            None
        }
    } else if dir == 1 {
        if c.x + 1 < size {
            Some(Cell { x: c.x + 1, y: c.y })
        } else {
            None
        }
    } else if dir == 2 {
        if c.y + 1 < size {
            Some(Cell { x: c.x, y: c.y + 1 })
        } else {
            None
        }
    } else {
        if c.x >= 1 {
            Some(Cell { x: c.x - 1, y: c.y })
        } else {
            None
        }
    }
}

/// Whether `b` is exactly one unit step from `a`.
pub fn is_adjacent(a: Cell, b: Cell) -> (r: bool)
    ensures
        r == adjacent(a, b),
{
    let dx: usize = if a.x >= b.x {
        a.x - b.x
    } else {
        b.x - a.x
    };
    let dy: usize = if a.y >= b.y {
        a.y - b.y
    } else {
        b.y - a.y
    };
    (dx == 1 && dy == 0) || (dx == 0 && dy == 1)
}

} // verus!
