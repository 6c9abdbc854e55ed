//! Corridor carving.
//!
//! A corridor between two cells follows the axis walk `lpath`: first along x
//! until the column matches, then along y. Carving clears the wall on both
//! sides of every step, clears one "escape" wall perpendicular to the travel
//! direction (with its mirror) so the corridor is never single file, and
//! finally opens every in-bounds wall around the destination.

use vstd::prelude::*;
use crate::cell::{Cell, adjacent, dir_between, has_neighbor, in_bounds, lemma_adjacent_dir,
    lemma_neighbor_props, neighbor, slot_index, step_target};
use crate::grid::WallGrid;
use crate::reach::{is_path, reachable, step_ok};

verus! {

/// Manhattan distance, the number of steps of the axis walk.
pub open spec fn ldist(from: Cell, to: Cell) -> nat {
    ((if from.x <= to.x {
        to.x - from.x
    } else {
        from.x - to.x
    }) + (if from.y <= to.y {
        to.y - from.y
    } else {
        from.y - to.y
    })) as nat
}

/// The next cell of the axis walk: move along x first, then along y.
pub open spec fn lnext(cur: Cell, to: Cell) -> Cell {
    if cur.x < to.x {
        Cell { x: (cur.x + 1) as usize, y: cur.y }
    } else if cur.x > to.x {
        Cell { x: (cur.x - 1) as usize, y: cur.y }
    } else if cur.y < to.y {
        Cell { x: cur.x, y: (cur.y + 1) as usize }
    } else {
        Cell { x: cur.x, y: (cur.y - 1) as usize }
    }
}

/// The cells of the axis walk from `from` to `to`, endpoints included.
pub open spec fn lpath(from: Cell, to: Cell) -> Seq<Cell>
    decreases ldist(from, to),
{
    if from == to {
        seq![from]
    } else {
        seq![from] + lpath(lnext(from, to), to)
    }
}

pub proof fn lemma_lpath(from: Cell, to: Cell)
    ensures
        lpath(from, to).len() == ldist(from, to) + 1,
        lpath(from, to).first() == from,
        lpath(from, to).last() == to,
        forall|k: int|
            0 <= k < ldist(from, to) ==> #[trigger] lpath(from, to)[k + 1] == lnext(
                lpath(from, to)[k],
                to,
            ),
        forall|k: int|
            0 <= k < ldist(from, to) ==> adjacent(#[trigger] lpath(from, to)[k], lpath(from, to)[k + 1]),
    decreases ldist(from, to),
{
    let p = lpath(from, to);
    if from == to {
    } else {
        let nx = lnext(from, to);
        lemma_lpath(nx, to);
        let q = lpath(nx, to);
        assert(p == seq![from] + q);
        assert(p[0] == from);
        assert(p.last() == q.last());
        assert forall|k: int| 0 <= k < ldist(from, to) implies #[trigger] p[k + 1] == lnext(
            p[k],
            to,
        ) && adjacent(p[k], p[k + 1]) by {
            if k == 0 {
                assert(p[1] == q[0]);
                assert(q[0] == nx);
                assert(adjacent(from, nx));
            } else {
                assert(p[k] == q[k - 1]);
                assert(p[k + 1] == q[k]);
            }
        }
    }
}

/// Every cell of the walk is in bounds and lies on the initial row or the
/// final column.
pub proof fn lemma_lpath_shape(size: int, from: Cell, to: Cell)
    requires
        in_bounds(size, from),
        in_bounds(size, to),
    ensures
        forall|k: int|
            0 <= k < lpath(from, to).len() ==> in_bounds(size, #[trigger] lpath(from, to)[k]) && (
            lpath(from, to)[k].y == from.y || lpath(from, to)[k].x == to.x),
    decreases ldist(from, to),
{
    let p = lpath(from, to);
    if from == to {
    } else {
        let nx = lnext(from, to);
        assert(in_bounds(size, nx));
        lemma_lpath_shape(size, nx, to);
        let q = lpath(nx, to);
        assert(p == seq![from] + q);
        assert forall|k: int| 0 <= k < p.len() implies in_bounds(size, #[trigger] p[k]) && (
        p[k].y == from.y || p[k].x == to.x) by {
            if k > 0 {
                assert(p[k] == q[k - 1]);
                if from.x == to.x {
                    assert(nx.x == to.x);
                    lemma_lpath_vertical(size, nx, to);
                } else {
                    assert(nx.y == from.y);
                }
            }
        }
    }
}

/// On a purely vertical walk every cell keeps the final column.
pub proof fn lemma_lpath_vertical(size: int, from: Cell, to: Cell)
    requires
        from.x == to.x,
    ensures
        forall|k: int|
            0 <= k < lpath(from, to).len() ==> (#[trigger] lpath(from, to)[k]).x == to.x,
    decreases ldist(from, to),
{
    let p = lpath(from, to);
    if from == to {
    } else {
        let nx = lnext(from, to);
        lemma_lpath_vertical(size, nx, to);
        let q = lpath(nx, to);
        assert(p == seq![from] + q);
        assert forall|k: int| 0 <= k < p.len() implies (#[trigger] p[k]).x == to.x by {
            if k > 0 {
                assert(p[k] == q[k - 1]);
            }
        }
    }
}

/// The escape direction at a corridor cell: perpendicular to the travel
/// direction, preferring up (for horizontal travel) and left (for vertical
/// travel) when those neighbors exist.
pub open spec fn escape_dir(c: Cell, to: Cell) -> int {
    if c.x != to.x {
        if c.y >= 1 {
            0
        } else {
            2
        }
    } else {
        if c.x >= 1 {
            3
        } else {
            1
        }
    }
}

/// Every step wall of the axis walk from `from` to `to` is clear.
pub open spec fn corridor_open(walls: Seq<bool>, size: int, from: Cell, to: Cell) -> bool {
    forall|k: int|
        0 <= k < ldist(from, to) ==> !walls[slot_index(
            size,
            #[trigger] lpath(from, to)[k],
            dir_between(lpath(from, to)[k], lpath(from, to)[k + 1]),
        )]
}

/// Every step wall of the axis walk is clear on the far side too: each next
/// cell's slot back toward the cell it was entered from. Both copies of the
/// shared wall stay in sync.
pub open spec fn corridor_mirror_open(walls: Seq<bool>, size: int, from: Cell, to: Cell) -> bool {
    forall|k: int|
        0 <= k < ldist(from, to) ==> !walls[slot_index(
            size,
            lpath(from, to)[k + 1],
            dir_between(lpath(from, to)[k + 1], #[trigger] lpath(from, to)[k]),
        )]
}

/// Every corridor cell (except the destination) has a clear escape wall
/// toward an in-bounds neighbor perpendicular to the travel direction.
pub open spec fn corridor_escape(walls: Seq<bool>, size: int, from: Cell, to: Cell) -> bool {
    forall|k: int|
        0 <= k < ldist(from, to) ==> has_neighbor(
            size,
            #[trigger] lpath(from, to)[k],
            escape_dir(lpath(from, to)[k], to),
        ) && !walls[slot_index(
            size,
            lpath(from, to)[k],
            escape_dir(lpath(from, to)[k], to),
        )]
}

/// Every in-bounds wall around `c` is clear.
pub open spec fn cell_open(walls: Seq<bool>, size: int, c: Cell) -> bool {
    forall|dir: int|
        0 <= dir < 4 && has_neighbor(size, c, dir) ==> !walls[#[trigger] slot_index(size, c, dir)]
}

/// Exec computation of `lnext`.
fn lnext_exec(cur: Cell, to: Cell, size: usize) -> (n: Cell)
    requires
        cur != to,
        in_bounds(size as int, cur),
        in_bounds(size as int, to),
    ensures
        n == lnext(cur, to),
        in_bounds(size as int, n),
        adjacent(cur, n),
{
    if cur.x < to.x {
        Cell { x: cur.x + 1, y: cur.y }
    } else if cur.x > to.x {
        Cell { x: cur.x - 1, y: cur.y }
    } else if cur.y < to.y {
        Cell { x: cur.x, y: cur.y + 1 }
    } else {
        Cell { x: cur.x, y: cur.y - 1 }
    }
}

/// Exec computation of `escape_dir`.
fn escape_dir_exec(c: Cell, to: Cell, size: usize) -> (e: usize)
    requires
        size >= 2,
        in_bounds(size as int, c),
    ensures
        e == escape_dir(c, to),
        e < 4,
        has_neighbor(size as int, c, e as int),
{
    if c.x != to.x {
        if c.y >= 1 {
            0
        } else {
            2
        }
    } else {
        if c.x >= 1 {
            3
        } else {
            1
        }
    }
}

/// Carves the two-cell-wide corridor from `from` to `to` along the axis walk,
/// clearing only walls (never setting any).
#[verifier::rlimit(60)]
pub fn carve_corridor(g: &mut WallGrid, from: Cell, to: Cell)
    requires
        old(g).wf(),
        old(g).size >= 2,
        in_bounds(old(g).size as int, from),
        in_bounds(old(g).size as int, to),
    ensures
        final(g).wf(),
        final(g).size == old(g).size,
        final(g).walls@.len() == old(g).walls@.len(),
        forall|i: int|
            0 <= i < final(g).walls@.len() && #[trigger] final(g).walls@[i] ==> old(g).walls@[i],
        corridor_open(final(g).walls@, old(g).size as int, from, to),
        corridor_mirror_open(final(g).walls@, old(g).size as int, from, to),
        corridor_escape(final(g).walls@, old(g).size as int, from, to),
        cell_open(final(g).walls@, old(g).size as int, to),
{
    let ghost size = g.size as int;
    let ghost w0 = g.walls@;
    let ghost p = lpath(from, to);
    proof {
        lemma_lpath(from, to);
        lemma_lpath_shape(size, from, to);
        assert forall|c: Cell, d: int| in_bounds(size, c) && 0 <= d < 4 implies 0
            <= #[trigger] slot_index(size, c, d) < g.walls@.len() by {
            crate::cell::lemma_slot_index_bounds(size, c, d);
        }
    }
    let mut cur = from;
    let ghost mut k: int = 0;
    while !(cur.x == to.x && cur.y == to.y)
        invariant
            g.wf(),
            g.size == old(g).size,
            size == g.size as int,
            g.size >= 2,
            in_bounds(size, from),
            in_bounds(size, to),
            in_bounds(size, cur),
            p == lpath(from, to),
            p.len() == ldist(from, to) + 1,
            0 <= k <= ldist(from, to),
            cur == p[k],
            ldist(cur, to) + k == ldist(from, to),
            g.walls@.len() == w0.len(),
            forall|c: Cell, d: int|
                in_bounds(size, c) && 0 <= d < 4 ==> 0 <= #[trigger] slot_index(size, c, d)
                    < g.walls@.len(),
            forall|i: int| 0 <= i < g.walls@.len() && #[trigger] g.walls@[i] ==> w0[i],
            forall|j: int|
                0 <= j < k ==> !g.walls@[slot_index(
                    size,
                    #[trigger] p[j],
                    dir_between(p[j], p[j + 1]),
                )],
            forall|j: int|
                0 <= j < k ==> !g.walls@[slot_index(
                    size,
                    p[j + 1],
                    dir_between(p[j + 1], #[trigger] p[j]),
                )],
            forall|j: int|
                0 <= j < k ==> has_neighbor(size, #[trigger] p[j], escape_dir(p[j], to))
                    && !g.walls@[slot_index(size, p[j], escape_dir(p[j], to))],
        decreases ldist(cur, to),
    {
        proof {
            lemma_lpath(from, to);
            lemma_lpath_shape(size, from, to);
            assert(cur != to);
            assert(k < ldist(from, to));
            assert(p[k + 1] == lnext(p[k], to));
        }
        let next = lnext_exec(cur, to, g.size);
        g.clear_between(cur, next);
        let e = escape_dir_exec(cur, to, g.size);
        proof {
            lemma_neighbor_props(size, cur, e as int);
        }
        let en = step_target(g.size, cur, e).unwrap();
        g.clear_between(cur, en);
        proof {
            assert(dir_between(cur, en) == e as int);
            assert(!g.walls@[slot_index(size, cur, e as int)]);
            assert(!g.walls@[slot_index(size, cur, dir_between(cur, next))]);
            assert(!g.walls@[slot_index(size, next, dir_between(next, cur))]);
            k = k + 1;
        }
        cur = next;
    }
    let mut dir: usize = 0;
    while dir < 4
        invariant
            g.wf(),
            g.size == old(g).size,
            size == g.size as int,
            g.size >= 2,
            in_bounds(size, from),
            in_bounds(size, to),
            dir <= 4,
            p == lpath(from, to),
            g.walls@.len() == w0.len(),
            forall|c: Cell, d: int|
                in_bounds(size, c) && 0 <= d < 4 ==> 0 <= #[trigger] slot_index(size, c, d)
                    < g.walls@.len(),
            forall|i: int| 0 <= i < g.walls@.len() && #[trigger] g.walls@[i] ==> w0[i],
            corridor_open(g.walls@, size, from, to),
            corridor_mirror_open(g.walls@, size, from, to),
            corridor_escape(g.walls@, size, from, to),
            forall|d: int|
                0 <= d < dir && has_neighbor(size, to, d) ==> !g.walls@[#[trigger] slot_index(
                    size,
                    to,
                    d,
                )],
        decreases 4 - dir,
    {
        proof {
            lemma_lpath(from, to);
            lemma_lpath_shape(size, from, to);
        }
        let nopt = step_target(g.size, to, dir);
        match nopt {
            Some(n) => {
                proof {
                    lemma_neighbor_props(size, to, dir as int);
                }
                g.clear_between(to, n);
                proof {
                    assert(dir_between(to, n) == dir as int);
                    assert(!g.walls@[slot_index(size, to, dir as int)]);
                }
            },
            None => {},
        }
        dir = dir + 1;
    }
}

/// Clearing further walls preserves a carved corridor: every fact stated of
/// it is of the form "this slot is clear".
pub proof fn lemma_corridor_preserved(w1: Seq<bool>, w2: Seq<bool>, size: int, from: Cell, to: Cell)
    requires
        w1.len() == w2.len(),
        in_bounds(size, from),
        in_bounds(size, to),
        forall|c: Cell, d: int|
            in_bounds(size, c) && 0 <= d < 4 ==> 0 <= #[trigger] slot_index(size, c, d) < w2.len(),
        forall|i: int| 0 <= i < w2.len() && #[trigger] w2[i] ==> w1[i],
        corridor_open(w1, size, from, to),
        corridor_mirror_open(w1, size, from, to),
        corridor_escape(w1, size, from, to),
        cell_open(w1, size, to),
    ensures
        corridor_open(w2, size, from, to),
        corridor_mirror_open(w2, size, from, to),
        corridor_escape(w2, size, from, to),
        cell_open(w2, size, to),
{
    let p = lpath(from, to);
    lemma_lpath(from, to);
    lemma_lpath_shape(size, from, to);
    assert forall|k: int| 0 <= k < ldist(from, to) implies !w2[slot_index(
        size,
        #[trigger] p[k],
        dir_between(p[k], p[k + 1]),
    )] by {
        assert(!w1[slot_index(size, p[k], dir_between(p[k], p[k + 1]))]);
    }
    assert forall|k: int| 0 <= k < ldist(from, to) implies !w2[slot_index(
        size,
        p[k + 1],
        dir_between(p[k + 1], #[trigger] p[k]),
    )] by {
        assert(!w1[slot_index(size, p[k + 1], dir_between(p[k + 1], p[k]))]);
    }
    assert forall|k: int| 0 <= k < ldist(from, to) implies has_neighbor(
        size,
        #[trigger] p[k],
        escape_dir(p[k], to),
    ) && !w2[slot_index(size, p[k], escape_dir(p[k], to))] by {
        assert(!w1[slot_index(size, p[k], escape_dir(p[k], to))]);
    }
    assert forall|dir: int| 0 <= dir < 4 && has_neighbor(size, to, dir) implies !w2[
        #[trigger] slot_index(size, to, dir)] by {
        assert(!w1[slot_index(size, to, dir)]);
    }
}

/// A clear corridor that avoids `blocked` on every cell after the first
/// makes its far end reachable.
pub proof fn lemma_corridor_reachable(
    walls: Seq<bool>,
    size: int,
    blocked: Option<Cell>,
    from: Cell,
    to: Cell,
)
    requires
        size <= usize::MAX,
        in_bounds(size, from),
        in_bounds(size, to),
        corridor_open(walls, size, from, to),
        forall|k: int| 1 <= k < lpath(from, to).len() ==> Some(#[trigger] lpath(from, to)[k]) != blocked,
    ensures
        reachable(walls, size, blocked, from, to),
{
    let p = lpath(from, to);
    lemma_lpath(from, to);
    lemma_lpath_shape(size, from, to);
    assert forall|i: int| 0 <= i < p.len() - 1 implies step_ok(
        walls,
        size,
        blocked,
        #[trigger] p[i],
        p[i + 1],
    ) by {
        assert(adjacent(p[i], p[i + 1]));
        lemma_adjacent_dir(size, p[i], p[i + 1]);
        assert(!walls[slot_index(size, p[i], dir_between(p[i], p[i + 1]))]);
        assert(Some(p[i + 1]) != blocked);
    }
    assert(is_path(walls, size, blocked, p));
    assert(p.first() == from && p.last() == to);
}

} // verus!
