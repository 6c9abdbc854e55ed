//! Reachability over the four-neighbor graph of a wall grid.
//!
//! An edge from `a` toward `b` is traversable iff the wall slot of `a` in the
//! direction of `b` is clear and `b` is not the optional blocked cell.
//! `reachable` is the specification (a path exists); `reachable_set` is the
//! executable flood fill, proved to return exactly the reachable cells.

use vstd::prelude::*;
use crate::cell::{Cell, adjacent, cell_index, dir_between, has_neighbor, in_bounds,
    lemma_adjacent_dir, lemma_cell_index_bounds, lemma_cell_index_injective, lemma_neighbor_props,
    neighbor, slot_index, step_target};
use crate::grid::WallGrid;

verus! {

/// One traversable step from `a` in direction `dir`: the neighbor exists,
/// the wall toward it is clear, and it is not the blocked cell.
pub open spec fn step_ok_dir(
    walls: Seq<bool>,
    size: int,
    blocked: Option<Cell>,
    a: Cell,
    dir: int,
) -> bool {
    &&& has_neighbor(size, a, dir)
    &&& !walls[slot_index(size, a, dir)]
    &&& blocked != Some(neighbor(a, dir))
}

/// One traversable step from `a` to the adjacent cell `b`.
pub open spec fn step_ok(
    walls: Seq<bool>,
    size: int,
    blocked: Option<Cell>,
    a: Cell,
    b: Cell,
) -> bool {
    &&& in_bounds(size, a)
    &&& in_bounds(size, b)
    &&& adjacent(a, b)
    &&& step_ok_dir(walls, size, blocked, a, dir_between(a, b))
}

/// A non-empty sequence of cells, each step traversable.
pub open spec fn is_path(
    walls: Seq<bool>,
    size: int,
    blocked: Option<Cell>,
    p: Seq<Cell>,
) -> bool {
    &&& p.len() >= 1
    &&& in_bounds(size, p[0])
    &&& forall|i: int|
        0 <= i < p.len() - 1 ==> step_ok(walls, size, blocked, #[trigger] p[i], p[i + 1])
}

/// Cell `c` is reachable from `start` without stepping onto the blocked cell.
pub open spec fn reachable(
    walls: Seq<bool>,
    size: int,
    blocked: Option<Cell>,
    start: Cell,
    c: Cell,
) -> bool {
    exists|p: Seq<Cell>|
        #[trigger] is_path(walls, size, blocked, p) && p.first() == start && p.last() == c
}

pub proof fn lemma_reachable_start(walls: Seq<bool>, size: int, blocked: Option<Cell>, start: Cell)
    requires
        in_bounds(size, start),
    ensures
        reachable(walls, size, blocked, start, start),
{
    let p = seq![start];
    assert(is_path(walls, size, blocked, p));
    assert(p.first() == start && p.last() == start);
}

pub proof fn lemma_reachable_step(
    walls: Seq<bool>,
    size: int,
    blocked: Option<Cell>,
    start: Cell,
    a: Cell,
    b: Cell,
)
    requires
        reachable(walls, size, blocked, start, a),
        step_ok(walls, size, blocked, a, b),
    ensures
        reachable(walls, size, blocked, start, b),
{
    let p = choose|p: Seq<Cell>|
        #[trigger] is_path(walls, size, blocked, p) && p.first() == start && p.last() == a;
    let q = p.push(b);
    assert forall|i: int| 0 <= i < q.len() - 1 implies step_ok(
        walls,
        size,
        blocked,
        #[trigger] q[i],
        q[i + 1],
    ) by {
        if i < p.len() - 1 {
            assert(q[i] == p[i] && q[i + 1] == p[i + 1]);
        } else {
            assert(q[i] == p[p.len() - 1] && q[i + 1] == b);
        }
    }
    assert(is_path(walls, size, blocked, q));
    assert(q.first() == start && q.last() == b);
}

/// A visited bitmap closed under traversable steps.
pub open spec fn closed_set(
    walls: Seq<bool>,
    size: int,
    blocked: Option<Cell>,
    visited: Seq<bool>,
) -> bool {
    forall|a: Cell, dir: int|
        0 <= dir < 4 && in_bounds(size, a) && visited[cell_index(size, a)] && #[trigger] step_ok_dir(
            walls,
            size,
            blocked,
            a,
            dir,
        ) ==> visited[cell_index(size, neighbor(a, dir))]
}

/// Every path that starts inside a closed visited bitmap ends inside it.
pub proof fn lemma_closed_complete(
    walls: Seq<bool>,
    size: int,
    blocked: Option<Cell>,
    visited: Seq<bool>,
    p: Seq<Cell>,
)
    requires
        size >= 1,
        size <= usize::MAX,
        visited.len() == size * size,
        is_path(walls, size, blocked, p),
        closed_set(walls, size, blocked, visited),
        visited[cell_index(size, p.first())],
    ensures
        visited[cell_index(size, p.last())],
    decreases p.len(),
{
    if p.len() > 1 {
        let q = p.drop_last();
        assert forall|i: int| 0 <= i < q.len() - 1 implies step_ok(
            walls,
            size,
            blocked,
            #[trigger] q[i],
            q[i + 1],
        ) by {
            assert(q[i] == p[i] && q[i + 1] == p[i + 1]);
            assert(step_ok(walls, size, blocked, p[i], p[i + 1]));
        }
        assert(is_path(walls, size, blocked, q));
        assert(q.first() == p.first());
        lemma_closed_complete(walls, size, blocked, visited, q);
        let a = p[p.len() - 2];
        let b = p[p.len() - 1];
        assert(step_ok(walls, size, blocked, a, b));
        lemma_adjacent_dir(size, a, b);
        assert(q.last() == a);
        assert(step_ok_dir(walls, size, blocked, a, dir_between(a, b)));
        assert(visited[cell_index(size, neighbor(a, dir_between(a, b)))]);
    }
}

/// Number of `false` entries; the flood fill's termination measure.
pub open spec fn count_false(s: Seq<bool>) -> nat
    decreases s.len(),
{
    if s.len() == 0 {
        0
    } else {
        count_false(s.drop_last()) + if s.last() {
            0nat
        } else {
            1nat
        }
    }
}

pub proof fn lemma_count_false_update(s: Seq<bool>, i: int)
    requires
        0 <= i < s.len(),
        !s[i],
    ensures
        count_false(s.update(i, true)) + 1 == count_false(s),
    decreases s.len(),
{
    let t = s.update(i, true);
    if i == s.len() - 1 {
        assert(t.drop_last() =~= s.drop_last());
        assert(t.last());
        assert(!s.last());
    } else {
        assert(t.drop_last() =~= s.drop_last().update(i, true));
        assert(t.last() == s.last());
        lemma_count_false_update(s.drop_last(), i);
    }
}

/// A bitmap of `n` entries, all `false`.
pub(crate) fn empty_bitmap(n: usize) -> (v: Vec<bool>)
    ensures
        v@.len() == n,
        forall|i: int| 0 <= i < n ==> !(#[trigger] v@[i]),
{
    let mut v: Vec<bool> = Vec::new();
    let mut i: usize = 0;
    while i < n
        invariant
            v@.len() == i,
            i <= n,
            forall|j: int| 0 <= j < i ==> !(#[trigger] v@[j]),
        decreases n - i,
    {
        v.push(false);
        i = i + 1;
    }
    v
}

/// Flood fill: the row-major bitmap of exactly the cells reachable from
/// `start`, treating `blocked` (if any) as impassable.
#[verifier::rlimit(100)]
#[verifier::spinoff_prover]
pub fn reachable_set(g: &WallGrid, start: Cell, blocked: Option<Cell>) -> (r: Vec<bool>)
    requires
        g.wf(),
        g.size >= 1,
        in_bounds(g.size as int, start),
    ensures
        r@.len() == g.size * g.size,
        forall|c: Cell|
            in_bounds(g.size as int, c) ==> (r@[#[trigger] cell_index(g.size as int, c)]
                == reachable(g.walls@, g.size as int, blocked, start, c)),
{
    let ghost size = g.size as int;
    let ghost walls = g.walls@;
    proof {
        assert(size * size <= size * size * 4);
    }
    let n = g.size * g.size;
    let mut visited = empty_bitmap(n);
    proof {
        lemma_cell_index_bounds(size, start);
    }
    let si = start.y * g.size + start.x;
    visited[si] = true;
    let mut stack: Vec<Cell> = Vec::new();
    stack.push(start);
    proof {
        lemma_reachable_start(walls, size, blocked, start);
        assert(stack@[0] == start);
        assert(stack@.contains(start));
        assert forall|c: Cell| in_bounds(size, c) implies 0 <= #[trigger] cell_index(size, c)
            < n by {
            lemma_cell_index_bounds(size, c);
        }
        assert forall|c: Cell|
            in_bounds(size, c) && visited@[#[trigger] cell_index(size, c)] implies reachable(
            walls,
            size,
            blocked,
            start,
            c,
        ) by {
            lemma_cell_index_bounds(size, c);
            if c != start {
                lemma_cell_index_injective(size, c, start);
            }
        }
        assert forall|a: Cell, dir: int|
            0 <= dir < 4 && in_bounds(size, a) && visited@[cell_index(size, a)]
                && !stack@.contains(a) && #[trigger] step_ok_dir(walls, size, blocked, a, dir)
                implies visited@[cell_index(size, neighbor(a, dir))] by {
            lemma_cell_index_bounds(size, a);
            if a != start {
                lemma_cell_index_injective(size, a, start);
            }
            assert(a == start);
            assert(false);
        }
    }
    while stack.len() > 0
        invariant
            g.wf(),
            size == g.size as int,
            walls == g.walls@,
            size >= 1,
            in_bounds(size, start),
            n == g.size * g.size,
            forall|c: Cell| in_bounds(size, c) ==> 0 <= #[trigger] cell_index(size, c) < n,
            visited@.len() == n,
            visited@[cell_index(size, start)],
            forall|k: int|
                0 <= k < stack@.len() ==> in_bounds(size, #[trigger] stack@[k]) && visited@[
                    cell_index(size, stack@[k])],
            forall|k1: int, k2: int|
                0 <= k1 < k2 < stack@.len() ==> #[trigger] stack@[k1] != #[trigger] stack@[k2],
            forall|c: Cell|
                in_bounds(size, c) && visited@[#[trigger] cell_index(size, c)] ==> reachable(
                    walls,
                    size,
                    blocked,
                    start,
                    c,
                ),
            forall|a: Cell, dir: int|
                0 <= dir < 4 && in_bounds(size, a) && visited@[cell_index(size, a)]
                    && !stack@.contains(a) && #[trigger] step_ok_dir(walls, size, blocked, a, dir)
                    ==> visited@[cell_index(size, neighbor(a, dir))],
        decreases count_false(visited@), stack@.len(),
    {
        let ghost v0 = visited@;
        let ghost s0 = stack@;
        let cur = stack.pop().unwrap();
        proof {
            assert(cur == s0[s0.len() - 1]);
            assert(stack@ =~= s0.drop_last());
            if stack@.contains(cur) {
                let k = choose|k: int| 0 <= k < stack@.len() && stack@[k] == cur;
                assert(s0[k] == s0[s0.len() - 1]);
                assert(false);
            }
            assert forall|a: Cell| s0.contains(a) && a != cur implies stack@.contains(a) by {
                let k = choose|k: int| 0 <= k < s0.len() && s0[k] == a;
                assert(stack@[k] == a);
            }
        }
        let mut dir: usize = 0;
        while dir < 4
            invariant
                g.wf(),
                size == g.size as int,
                walls == g.walls@,
                size >= 1,
                in_bounds(size, start),
                n == g.size * g.size,
                forall|c: Cell| in_bounds(size, c) ==> 0 <= #[trigger] cell_index(size, c) < n,
                dir <= 4,
                visited@.len() == n,
                visited@[cell_index(size, start)],
                in_bounds(size, cur),
                visited@[cell_index(size, cur)],
                !stack@.contains(cur),
                forall|k: int|
                    0 <= k < stack@.len() ==> in_bounds(size, #[trigger] stack@[k]) && visited@[
                        cell_index(size, stack@[k])],
                forall|k1: int, k2: int|
                    0 <= k1 < k2 < stack@.len() ==> #[trigger] stack@[k1] != #[trigger] stack@[k2],
                forall|c: Cell|
                    in_bounds(size, c) && visited@[#[trigger] cell_index(size, c)] ==> reachable(
                        walls,
                        size,
                        blocked,
                        start,
                        c,
                    ),
                forall|a: Cell, d: int|
                    0 <= d < 4 && in_bounds(size, a) && visited@[cell_index(size, a)]
                        && !stack@.contains(a) && a != cur && #[trigger] step_ok_dir(
                        walls,
                        size,
                        blocked,
                        a,
                        d,
                    ) ==> visited@[cell_index(size, neighbor(a, d))],
                forall|d: int|
                    0 <= d < dir && #[trigger] step_ok_dir(walls, size, blocked, cur, d)
                        ==> visited@[cell_index(size, neighbor(cur, d))],
                visited@ == v0 && stack@ == s0.drop_last() || count_false(visited@) < count_false(
                    v0,
                ),
                count_false(visited@) <= count_false(v0),
            decreases 4 - dir,
        {
            let nopt = step_target(g.size, cur, dir);
            match nopt {
                Some(nb) => {
                    proof {
                        lemma_neighbor_props(size, cur, dir as int);
                    }
                    let mut blockedhit: bool = false;
                    match blocked {
                        Some(b) => {
                            if b.x == nb.x && b.y == nb.y {
                                blockedhit = true;
                            }
                        },
                        None => {},
                    }
                    if !blockedhit {
                        let w = g.get_wall(cur, dir);
                        if !w {
                            proof {
                                lemma_cell_index_bounds(size, nb);
                            }
                            let ni = nb.y * g.size + nb.x;
                            if !visited[ni] {
                                let ghost vb = visited@;
                                let ghost sb = stack@;
                                proof {
                                    lemma_count_false_update(visited@, ni as int);
                                    if stack@.contains(nb) {
                                        let k = choose|k: int|
                                            0 <= k < stack@.len() && stack@[k] == nb;
                                        assert(visited@[cell_index(size, stack@[k])]);
                                        assert(false);
                                    }
                                }
                                visited[ni] = true;
                                stack.push(nb);
                                proof {
                                    assert(stack@.last() == nb);
                                    assert(stack@.contains(nb));
                                    assert(step_ok_dir(walls, size, blocked, cur, dir as int));
                                    assert(step_ok(walls, size, blocked, cur, nb));
                                    assert(reachable(walls, size, blocked, start, cur));
                                    lemma_reachable_step(walls, size, blocked, start, cur, nb);
                                    assert forall|c: Cell|
                                        in_bounds(size, c) && visited@[#[trigger] cell_index(
                                            size,
                                            c,
                                        )] implies reachable(walls, size, blocked, start, c) by {
                                        if !vb[cell_index(size, c)] {
                                            lemma_cell_index_bounds(size, c);
                                            if c != nb {
                                                lemma_cell_index_injective(size, c, nb);
                                            }
                                            assert(c == nb);
                                        }
                                    }
                                    assert forall|a: Cell, d: int|
                                        0 <= d < 4 && in_bounds(size, a) && visited@[cell_index(
                                            size,
                                            a,
                                        )] && !stack@.contains(a) && a != cur
                                            && #[trigger] step_ok_dir(
                                            walls,
                                            size,
                                            blocked,
                                            a,
                                            d,
                                        ) implies visited@[cell_index(size, neighbor(a, d))] by {
                                        if sb.contains(a) {
                                            let k = choose|k: int|
                                                0 <= k < sb.len() && sb[k] == a;
                                            assert(stack@[k] == a);
                                            assert(false);
                                        }
                                        if !vb[cell_index(size, a)] {
                                            lemma_cell_index_bounds(size, a);
                                            if a != nb {
                                                lemma_cell_index_injective(size, a, nb);
                                            }
                                            assert(a == nb);
                                            assert(false);
                                        }
                                        assert(vb[cell_index(size, neighbor(a, d))]);
                                    }
                                }
                            }
                        }
                    }
                },
                None => {},
            }
            dir = dir + 1;
        }
        proof {
            assert forall|a: Cell, d: int|
                0 <= d < 4 && in_bounds(size, a) && visited@[cell_index(size, a)]
                    && !stack@.contains(a) && #[trigger] step_ok_dir(
                    walls,
                    size,
                    blocked,
                    a,
                    d,
                ) implies visited@[cell_index(size, neighbor(a, d))] by {
                if a != cur {
                } else {
                    assert(step_ok_dir(walls, size, blocked, cur, d));
                }
            }
        }
    }
    proof {
        assert forall|c: Cell|
            in_bounds(size, c) && reachable(walls, size, blocked, start, c) implies visited@[
            cell_index(size, c)] by {
            let p = choose|p: Seq<Cell>|
                #[trigger] is_path(walls, size, blocked, p) && p.first() == start && p.last() == c;
            assert(closed_set(walls, size, blocked, visited@));
            lemma_closed_complete(walls, size, blocked, visited@, p);
        }
    }
    visited
}

} // verus!
