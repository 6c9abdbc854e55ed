//! Bitmask wall storage: one boolean per cell and direction.
//!
//! The wall between two adjacent cells is stored independently on both sides;
//! `clear_between` is the single place that opens a passage, and it always
//! clears both sides at once.

use vstd::prelude::*;
use crate::cell::{Cell, adjacent, dir_between, in_bounds, lemma_adjacent_dir, lemma_slot_index_bounds, slot_index};

verus! {

#[derive(Clone)]
pub struct WallGrid {
    pub size: usize,
    pub walls: Vec<bool>,
}

impl WallGrid {
    pub open spec fn wf(self) -> bool {
        &&& self.walls@.len() == self.size * self.size * 4
        &&& self.size * self.size * 4 <= usize::MAX
    }

    /// The wall flag of cell `c` in direction `dir`; `true` means impassable.
    pub open spec fn wall_at(self, c: Cell, dir: int) -> bool {
        self.walls@[slot_index(self.size as int, c, dir)]
    }

    pub fn new(size: usize, walls: Vec<bool>) -> (g: WallGrid)
        requires
            walls@.len() == size * size * 4,
            size * size * 4 <= usize::MAX,
        ensures
            g.size == size,
            g.walls == walls,
            g.wf(),
    {
        WallGrid { size, walls }
    }

    /// Exec computation of `slot_index`.
    pub fn slot_of(&self, c: Cell, dir: usize) -> (idx: usize)
        requires
            self.wf(),
            in_bounds(self.size as int, c),
            dir < 4,
        ensures
            idx == slot_index(self.size as int, c, dir as int),
            idx < self.walls@.len(),
    {
        proof {
            lemma_slot_index_bounds(self.size as int, c, dir as int);
        }
        (c.y * self.size + c.x) * 4 + dir
    }

    pub fn get_wall(&self, c: Cell, dir: usize) -> (b: bool)
        requires
            self.wf(),
            in_bounds(self.size as int, c),
            dir < 4,
        ensures
            b == self.wall_at(c, dir as int),
    {
        let i = self.slot_of(c, dir);
        self.walls[i]
    }

    pub fn set_wall(&mut self, c: Cell, dir: usize, value: bool)
        requires
            old(self).wf(),
            in_bounds(old(self).size as int, c),
            dir < 4,
        ensures
            final(self).wf(),
            final(self).size == old(self).size,
            final(self).walls@ == old(self).walls@.update(
                slot_index(old(self).size as int, c, dir as int),
                value,
            ),
    {
        let i = self.slot_of(c, dir);
        self.walls[i] = value;
    }

    /// Index of the wall slot of `from` toward the adjacent cell `to`.
    pub fn wall_index(&self, from: Cell, to: Cell) -> (idx: usize)
        requires
            self.wf(),
            in_bounds(self.size as int, from),
            in_bounds(self.size as int, to),
            adjacent(from, to),
        ensures
            idx == slot_index(self.size as int, from, dir_between(from, to)),
            idx < self.walls@.len(),
    {
        let d: usize = if to.x > from.x {
            1
        } else if to.x < from.x {
            3
        } else if to.y > from.y {
            2
        } else {
            0
        };
        self.slot_of(from, d)
    }

    /// Opens the passage between two adjacent cells, clearing the wall slot
    /// on both sides; no other slot changes.
    pub fn clear_between(&mut self, a: Cell, b: Cell)
        requires
            old(self).wf(),
            in_bounds(old(self).size as int, a),
            in_bounds(old(self).size as int, b),
            adjacent(a, b),
        ensures
            final(self).wf(),
            final(self).size == old(self).size,
            final(self).walls@.len() == old(self).walls@.len(),
            !final(self).wall_at(a, dir_between(a, b)),
            !final(self).wall_at(b, dir_between(b, a)),
            forall|i: int|
                0 <= i < final(self).walls@.len() ==> #[trigger] final(self).walls@[i] == (
                if i == slot_index(old(self).size as int, a, dir_between(a, b)) || i == slot_index(
                    old(self).size as int,
                    b,
                    dir_between(b, a),
                ) {
                    false
                } else {
                    old(self).walls@[i]
                }),
    {
        proof {
            lemma_adjacent_dir(self.size as int, a, b);
        }
        let i = self.wall_index(a, b);
        self.walls[i] = false;
        let j = self.wall_index(b, a);
        self.walls[j] = false;
    }
}

} // verus!
