use vstd::prelude::*;

use crate::engine::grid::{occupied, Grid};
use crate::engine::grid_position::{GridPosition, CELL_COUNT};

verus! {

/// A g-score of a cell that has not been reached yet.
pub open spec fn no_score() -> usize {
    usize::MAX
}

/// One step from `a` to `b` is allowed: `b` is next to `a`, on the field, and
/// open according to `allowed`.
pub open spec fn step_ok(allowed: Seq<bool>, a: GridPosition, b: GridPosition) -> bool {
    &&& a.adjacent(b)
    &&& b.valid()
    &&& allowed[b.0 as int]
}

/// `p` is a walk from `start` to `goal` through allowed cells.
pub open spec fn is_path(allowed: Seq<bool>, p: Seq<GridPosition>, start: GridPosition, goal: GridPosition) -> bool {
    &&& p.len() >= 1
    &&& p[0] == start
    &&& p.last() == goal
    &&& forall|k: int| 0 <= k < p.len() - 1 ==> #[trigger] step_ok(allowed, p[k], p[k + 1])
}

/// Some walk through allowed cells leads from `start` to `goal`.
pub open spec fn reachable(allowed: Seq<bool>, start: GridPosition, goal: GridPosition) -> bool {
    exists|p: Seq<GridPosition>| #[trigger] is_path(allowed, p, start, goal)
}

/// The walk after its first step leads from the second cell to the goal.
pub proof fn lemma_path_tail(allowed: Seq<bool>, p: Seq<GridPosition>, start: GridPosition, goal: GridPosition)
    requires
        is_path(allowed, p, start, goal),
        p.len() > 1,
    ensures
        step_ok(allowed, start, p[1]),
        is_path(allowed, p.subrange(1, p.len() as int), p[1], goal),
        reachable(allowed, p[1], goal),
{
    let rest = p.subrange(1, p.len() as int);
    assert(step_ok(allowed, p[0], p[0int + 1]));
    assert forall|k: int| 0 <= k < rest.len() - 1 implies #[trigger] step_ok(allowed, rest[k], rest[k + 1]) by {
        assert(step_ok(allowed, p[k + 1], p[(k + 1) + 1]));
    }
    assert(is_path(allowed, rest, p[1], goal));
}

/// The sum of a list of scores.
pub open spec fn seq_sum(s: Seq<usize>) -> int
    decreases s.len(),
{
    if s.len() == 0 {
        0
    } else {
        seq_sum(s.drop_last()) + s.last() as int
    }
}

proof fn lemma_seq_sum_update(s: Seq<usize>, i: int, v: usize)
    requires
        0 <= i < s.len(),
    ensures
        seq_sum(s.update(i, v)) == seq_sum(s) - s[i] + v,
    decreases s.len(),
{
    let t = s.update(i, v);
    if i == s.len() - 1 {
        assert(t.drop_last() =~= s.drop_last());
    } else {
        assert(t.drop_last() =~= s.drop_last().update(i, v));
        lemma_seq_sum_update(s.drop_last(), i, v);
    }
}

proof fn lemma_seq_sum_nonneg(s: Seq<usize>)
    ensures
        seq_sum(s) >= 0,
    decreases s.len(),
{
    if s.len() > 0 {
        lemma_seq_sum_nonneg(s.drop_last());
    }
}

/// The cells that are empty on `grid`, as an allowed-mask.
pub fn empty_mask(grid: &Grid) -> (r: Vec<bool>)
    requires
        grid@.len() == CELL_COUNT,
    ensures
        r@.len() == CELL_COUNT,
        forall|i: int| 0 <= i < CELL_COUNT ==> r@[i] == !occupied(grid@, GridPosition(i as usize)),
{
    let mut r: Vec<bool> = Vec::new();
    let mut k: usize = 0;
    while k < CELL_COUNT
        invariant
            grid@.len() == CELL_COUNT,
            k <= CELL_COUNT,
            r@.len() == k,
            forall|i: int| 0 <= i < k ==> r@[i] == !occupied(grid@, GridPosition(i as usize)),
        decreases CELL_COUNT - k,
    {
        r.push(GridPosition(k).is_empty(grid));
        k = k + 1;
    }
    r
}

/// Predecessor and g-score tables in which no cell has been reached.
pub fn fresh_tables() -> (r: (Vec<Option<GridPosition>>, Vec<usize>))
    ensures
        r.0@.len() == CELL_COUNT,
        r.1@.len() == CELL_COUNT,
        forall|j: int| 0 <= j < CELL_COUNT ==> r.0@[j] is None,
        forall|j: int| 0 <= j < CELL_COUNT ==> r.1@[j] == no_score(),
{
    let mut came_from: Vec<Option<GridPosition>> = Vec::new();
    let mut g_score: Vec<usize> = Vec::new();
    let mut k: usize = 0;
    while k < CELL_COUNT
        invariant
            k <= CELL_COUNT,
            came_from@.len() == k,
            g_score@.len() == k,
            forall|j: int| 0 <= j < k ==> came_from@[j] is None,
            forall|j: int| 0 <= j < k ==> g_score@[j] == no_score(),
        decreases CELL_COUNT - k,
    {
        came_from.push(None);
        g_score.push(usize::MAX);
        k = k + 1;
    }
    (came_from, g_score)
}

/// Index of the open entry with the smallest f-score (the first one among
/// equals).
pub fn lowest_f(open: &Vec<(usize, GridPosition)>) -> (r: usize)
    requires
        open@.len() > 0,
    ensures
        r < open@.len(),
        forall|k: int| 0 <= k < open@.len() ==> open@[r as int].0 <= open@[k].0,
        forall|k: int| 0 <= k < r ==> open@[r as int].0 < open@[k].0,
{
    let mut best: usize = 0;
    let mut k: usize = 1;
    while k < open.len()
        invariant
            open@.len() > 0,
            1 <= k <= open@.len(),
            best < k,
            forall|j: int| 0 <= j < k ==> open@[best as int].0 <= open@[j].0,
            forall|j: int| 0 <= j < best ==> open@[best as int].0 < open@[j].0,
        decreases open@.len() - k,
    {
        if open[k].0 < open[best].0 {
            best = k;
        }
        k = k + 1;
    }
    best
}

/// The open list has an entry for `q`.
pub fn open_contains(open: &Vec<(usize, GridPosition)>, q: GridPosition) -> (r: bool)
    ensures
        r == open_has(open@, q),
{
    let mut k: usize = 0;
    while k < open.len()
        invariant
            k <= open@.len(),
            forall|j: int| 0 <= j < k ==> open@[j].1 != q,
        decreases open@.len() - k,
    {
        if open[k].1 == q {
            return true;
        }
        k = k + 1;
    }
    false
}

/// The Manhattan distance heuristic.
pub fn base_heuristic(pos: GridPosition, goal: GridPosition) -> (r: usize)
    ensures
        r == pos.distance(goal),
{
    pos.manhattan_distance(&goal)
}

/// Adjacent positions differ, and a neighbour of a cell on the field is on
/// the field.
pub proof fn lemma_adjacent_distinct(a: GridPosition, b: GridPosition)
    requires
        a.valid(),
        a.adjacent(b),
    ensures
        a != b,
        b.valid(),
{
    let d = choose|d: crate::engine::direction::Direction| #[trigger] a.moved(d) == Some(b);
}

/// Position `q` has an entry in the open list.
pub open spec fn open_has(open: Seq<(usize, GridPosition)>, q: GridPosition) -> bool {
    exists|k: int| 0 <= k < open.len() && #[trigger] open[k].1 == q
}

/// The number of cells that have a g-score.
pub open spec fn count_scored(g: Seq<usize>) -> nat
    decreases g.len(),
{
    if g.len() == 0 {
        0
    } else {
        count_scored(g.drop_last()) + if g.last() != no_score() {
            1nat
        } else {
            0nat
        }
    }
}

proof fn lemma_count_scored_update(g: Seq<usize>, i: int, v: usize)
    requires
        0 <= i < g.len(),
    ensures
        count_scored(g.update(i, v)) + (if g[i] != no_score() {
            1int
        } else {
            0int
        }) == count_scored(g) + (if v != no_score() {
            1int
        } else {
            0int
        }),
    decreases g.len(),
{
    let t = g.update(i, v);
    if i == g.len() - 1 {
        assert(t.drop_last() =~= g.drop_last());
    } else {
        assert(t.drop_last() =~= g.drop_last().update(i, v));
        lemma_count_scored_update(g.drop_last(), i, v);
    }
}

proof fn lemma_count_scored_bound(g: Seq<usize>)
    ensures
        count_scored(g) <= g.len(),
    decreases g.len(),
{
    if g.len() > 0 {
        lemma_count_scored_bound(g.drop_last());
    }
}

/// Cell `i` has a predecessor one allowed step before it, with a smaller
/// g-score.
pub open spec fn pred_ok(s: Seq<bool>, g: Seq<usize>, came: Seq<Option<GridPosition>>, i: int) -> bool {
    &&& came[i] matches Some(c)
    &&& c.valid()
    &&& c.adjacent(GridPosition(i as usize))
    &&& s[i]
    &&& g[c.0 as int] < g[i]
}

/// The g-score and predecessor tables of a search from `start`.
#[verifier::opaque]
pub open spec fn tables_ok(s: Seq<bool>, start: GridPosition, g: Seq<usize>, came: Seq<Option<GridPosition>>) -> bool {
    &&& s.len() == CELL_COUNT
    &&& g.len() == CELL_COUNT
    &&& came.len() == CELL_COUNT
    &&& start.valid()
    &&& g[start.0 as int] == 0
    &&& came[start.0 as int] is None
    &&& forall|i: int|
        #![trigger g[i]]
        0 <= i < CELL_COUNT && g[i] != no_score() ==> g[i] < count_scored(g) && (i != start.0 ==> pred_ok(
            s,
            g,
            came,
            i,
        ))
}

/// Every open entry is a scored cell on the field.
#[verifier::opaque]
pub open spec fn open_ok(g: Seq<usize>, open: Seq<(usize, GridPosition)>) -> bool {
    forall|k: int| #![trigger open[k]] 0 <= k < open.len() ==> open[k].1.valid() && g[open[k].1.0 as int] != no_score()
}

/// Every allowed neighbour of cell `i` has a g-score.
pub open spec fn expanded(allowed: Seq<bool>, g: Seq<usize>, i: int) -> bool {
    forall|m: GridPosition|
        #![trigger GridPosition(i as usize).adjacent(m)]
        GridPosition(i as usize).adjacent(m) && allowed[m.0 as int] ==> g[m.0 as int] != no_score()
}

/// Every scored cell but `skip` is still open or has all its allowed
/// neighbours scored.
#[verifier::opaque]
pub open spec fn closed_inv(allowed: Seq<bool>, g: Seq<usize>, open: Seq<(usize, GridPosition)>, skip: int) -> bool {
    forall|i: int|
        #![trigger g[i]]
        0 <= i < CELL_COUNT && g[i] != no_score() && i != skip ==> open_has(open, GridPosition(i as usize))
            || expanded(allowed, g, i)
}

/// The shape of the tables of a search.
proof fn lemma_tables_basic(s: Seq<bool>, start: GridPosition, g: Seq<usize>, came: Seq<Option<GridPosition>>)
    requires
        tables_ok(s, start, g, came),
    ensures
        s.len() == CELL_COUNT,
        g.len() == CELL_COUNT,
        came.len() == CELL_COUNT,
        start.valid(),
        g[start.0 as int] == 0,
        came[start.0 as int] is None,
{
    reveal(tables_ok);
}

/// What the tables of a search say of a scored cell.
proof fn lemma_scored(s: Seq<bool>, start: GridPosition, g: Seq<usize>, came: Seq<Option<GridPosition>>, i: int)
    requires
        tables_ok(s, start, g, came),
        0 <= i < CELL_COUNT,
        g[i] != no_score(),
    ensures
        g[i] < CELL_COUNT,
        i != start.0 ==> pred_ok(s, g, came, i),
{
    reveal(tables_ok);
    lemma_count_scored_bound(g);
}

/// If the scored cells are closed under allowed steps, every cell on a walk
/// from a scored cell is scored.
proof fn lemma_closed_reaches(allowed: Seq<bool>, g: Seq<usize>, p: Seq<GridPosition>, start: GridPosition, goal: GridPosition, k: int)
    requires
        is_path(allowed, p, start, goal),
        g.len() == CELL_COUNT,
        start.valid(),
        g[start.0 as int] != no_score(),
        forall|i: int| #![trigger g[i]] 0 <= i < CELL_COUNT && g[i] != no_score() ==> expanded(allowed, g, i),
        0 <= k < p.len(),
    ensures
        p[k].valid(),
        g[p[k].0 as int] != no_score(),
    decreases k,
{
    if k > 0 {
        lemma_closed_reaches(allowed, g, p, start, goal, k - 1);
        assert(step_ok(allowed, p[k - 1], p[(k - 1) + 1]));
        let i = p[k - 1].0 as int;
        assert(g[i] != no_score());
        assert(expanded(allowed, g, i));
        assert(GridPosition(i as usize) == p[k - 1]);
        assert(GridPosition(i as usize).adjacent(p[k]));
    }
}

/// When nothing is open any more, a goal without a g-score cannot be reached.
proof fn lemma_exhausted(
    s: Seq<bool>,
    start: GridPosition,
    goal: GridPosition,
    g: Seq<usize>,
    came: Seq<Option<GridPosition>>,
    open: Seq<(usize, GridPosition)>,
)
    requires
        tables_ok(s, start, g, came),
        closed_inv(s, g, open, -1),
        open.len() == 0,
        g[goal.0 as int] != no_score() ==> open_has(open, goal),
    ensures
        !reachable(s, start, goal),
{
    reveal(tables_ok);
    reveal(closed_inv);
    if reachable(s, start, goal) {
        let p = choose|p: Seq<GridPosition>| #[trigger] is_path(s, p, start, goal);
        lemma_closed_reaches(s, g, p, start, goal, p.len() - 1);
    }
}

/// The state of a search right after it started at `start`.
proof fn lemma_search_start(
    s: Seq<bool>,
    start: GridPosition,
    goal: GridPosition,
    g0: Seq<usize>,
    came: Seq<Option<GridPosition>>,
    open: Seq<(usize, GridPosition)>,
)
    requires
        s.len() == CELL_COUNT,
        start.valid(),
        g0.len() == CELL_COUNT,
        came.len() == CELL_COUNT,
        forall|j: int| 0 <= j < CELL_COUNT ==> came[j] is None,
        forall|j: int| 0 <= j < CELL_COUNT ==> g0[j] == no_score(),
        open.len() == 1,
        open[0].1 == start,
        goal.valid(),
    ensures
        tables_ok(s, start, g0.update(start.0 as int, 0), came),
        open_ok(g0.update(start.0 as int, 0), open),
        closed_inv(s, g0.update(start.0 as int, 0), open, -1),
        g0.update(start.0 as int, 0)[goal.0 as int] != no_score() ==> open_has(open, goal),
{
    reveal(tables_ok);
    reveal(open_ok);
    reveal(closed_inv);
    let g = g0.update(start.0 as int, 0);
    lemma_count_scored_update(g0, start.0 as int, 0);
    assert(count_scored(g0) == 0) by {
        lemma_count_scored_zero(g0);
    }
    assert(open_has(open, start));
    assert forall|i: int| #![trigger g[i]] 0 <= i < CELL_COUNT && g[i] != no_score() implies i == start.0 by {}
    if goal.0 == start.0 {
        assert(goal == start);
    }
}

proof fn lemma_count_scored_zero(g: Seq<usize>)
    requires
        forall|j: int| 0 <= j < g.len() ==> g[j] == no_score(),
    ensures
        count_scored(g) == 0,
    decreases g.len(),
{
    if g.len() > 0 {
        lemma_count_scored_zero(g.drop_last());
    }
}

/// Removing the entry at `idx` from the open list keeps the search
/// consistent; only the removed cell may now lack both an open entry and
/// scored neighbours.
proof fn lemma_pop_open(
    s: Seq<bool>,
    start: GridPosition,
    g: Seq<usize>,
    came: Seq<Option<GridPosition>>,
    before: Seq<(usize, GridPosition)>,
    idx: int,
)
    requires
        tables_ok(s, start, g, came),
        open_ok(g, before),
        closed_inv(s, g, before, -1),
        0 <= idx < before.len(),
    ensures
        open_ok(g, before.remove(idx)),
        closed_inv(s, g, before.remove(idx), before[idx].1.0 as int),
        forall|q: GridPosition| q != before[idx].1 && open_has(before, q) ==> open_has(before.remove(idx), q),
        before[idx].1.valid(),
        g[before[idx].1.0 as int] != no_score(),
        g[before[idx].1.0 as int] < CELL_COUNT,
{
    reveal(open_ok);
    reveal(closed_inv);
    let after = before.remove(idx);
    let current = before[idx].1;
    assert(before[idx].1.valid() && g[before[idx].1.0 as int] != no_score());
    lemma_scored(s, start, g, came, current.0 as int);
    assert forall|q: GridPosition| q != current && open_has(before, q) implies open_has(after, q) by {
        let k = choose|k: int| 0 <= k < before.len() && #[trigger] before[k].1 == q;
        if k < idx {
            assert(after[k].1 == q);
        } else {
            assert(after[k - 1].1 == q);
        }
    }
    assert forall|k: int| #![trigger after[k]] 0 <= k < after.len() implies after[k].1.valid() && g[after[k].1.0
        as int] != no_score() by {
        if k < idx {
            assert(after[k] == before[k]);
        } else {
            assert(after[k] == before[k + 1]);
        }
    }
    assert forall|i: int|
        #![trigger g[i]]
        0 <= i < CELL_COUNT && g[i] != no_score() && i != current.0 implies open_has(after, GridPosition(i as usize))
            || expanded(s, g, i) by {
        if open_has(before, GridPosition(i as usize)) {
            assert(GridPosition(i as usize) != current);
        }
    }
}

/// The tables stay consistent when `n` gets the better g-score `tentative`
/// through `current` and (if it had none) an open entry.
proof fn lemma_relax(
    s: Seq<bool>,
    start: GridPosition,
    current: GridPosition,
    n: GridPosition,
    tentative: usize,
    g_old: Seq<usize>,
    c_old: Seq<Option<GridPosition>>,
    o_old: Seq<(usize, GridPosition)>,
    o2: Seq<(usize, GridPosition)>,
)
    requires
        tables_ok(s, start, g_old, c_old),
        open_ok(g_old, o_old),
        closed_inv(s, g_old, o_old, current.0 as int),
        current.valid(),
        g_old[current.0 as int] != no_score(),
        current.adjacent(n),
        n.valid(),
        n != current,
        s[n.0 as int],
        tentative == g_old[current.0 as int] + 1,
        tentative < g_old[n.0 as int],
        o2.len() >= o_old.len(),
        forall|k: int| 0 <= k < o_old.len() ==> o2[k] == o_old[k],
        forall|k: int| o_old.len() <= k < o2.len() ==> o2[k].1 == n,
        open_has(o2, n),
    ensures
        tables_ok(s, start, g_old.update(n.0 as int, tentative), c_old.update(n.0 as int, Some(current))),
        open_ok(g_old.update(n.0 as int, tentative), o2),
        closed_inv(s, g_old.update(n.0 as int, tentative), o2, current.0 as int),
        forall|q: GridPosition| open_has(o_old, q) ==> open_has(o2, q),
{
    lemma_tables_basic(s, start, g_old, c_old);
    lemma_relax_tables(s, start, current, n, tentative, g_old, c_old);
    lemma_relax_open(n, tentative, g_old, o_old, o2);
    assert forall|q: GridPosition| open_has(o_old, q) implies open_has(o2, q) by {
        let k = choose|k: int| 0 <= k < o_old.len() && #[trigger] o_old[k].1 == q;
        assert(o2[k] == o_old[k]);
    }
    lemma_relax_closed(s, current, n, tentative, g_old, o_old, o2);
}

proof fn lemma_relax_tables(
    s: Seq<bool>,
    start: GridPosition,
    current: GridPosition,
    n: GridPosition,
    tentative: usize,
    g_old: Seq<usize>,
    c_old: Seq<Option<GridPosition>>,
)
    requires
        tables_ok(s, start, g_old, c_old),
        current.valid(),
        g_old[current.0 as int] != no_score(),
        current.adjacent(n),
        n.valid(),
        n != current,
        s[n.0 as int],
        tentative == g_old[current.0 as int] + 1,
        tentative < g_old[n.0 as int],
    ensures
        tables_ok(s, start, g_old.update(n.0 as int, tentative), c_old.update(n.0 as int, Some(current))),
{
    reveal(tables_ok);
    let g2 = g_old.update(n.0 as int, tentative);
    let c2 = c_old.update(n.0 as int, Some(current));
    assert(n.0 != start.0);
    lemma_count_scored_update(g_old, n.0 as int, tentative);
    assert(g_old[current.0 as int] < count_scored(g_old));
    assert forall|i: int|
        #![trigger g2[i]]
        0 <= i < CELL_COUNT && g2[i] != no_score() implies g2[i] < count_scored(g2) && (i != start.0 ==> pred_ok(
            s,
            g2,
            c2,
            i,
        )) by {
        if i != n.0 {
            assert(g_old[i] == g2[i]);
            assert(g_old[i] < count_scored(g_old));
        } else {
            assert(GridPosition(i as usize) == n);
        }
    }
}

proof fn lemma_relax_open(
    n: GridPosition,
    tentative: usize,
    g_old: Seq<usize>,
    o_old: Seq<(usize, GridPosition)>,
    o2: Seq<(usize, GridPosition)>,
)
    requires
        g_old.len() == CELL_COUNT,
        open_ok(g_old, o_old),
        n.valid(),
        tentative != no_score(),
        o2.len() >= o_old.len(),
        forall|k: int| 0 <= k < o_old.len() ==> o2[k] == o_old[k],
        forall|k: int| o_old.len() <= k < o2.len() ==> o2[k].1 == n,
    ensures
        open_ok(g_old.update(n.0 as int, tentative), o2),
{
    reveal(open_ok);
    let g2 = g_old.update(n.0 as int, tentative);
    assert forall|k: int| #![trigger o2[k]] 0 <= k < o2.len() implies o2[k].1.valid() && g2[o2[k].1.0 as int]
        != no_score() by {
        if k < o_old.len() {
            assert(o2[k] == o_old[k]);
            assert(o_old[k].1.valid() && g_old[o_old[k].1.0 as int] != no_score());
        }
    }
}

proof fn lemma_relax_closed(
    s: Seq<bool>,
    current: GridPosition,
    n: GridPosition,
    tentative: usize,
    g_old: Seq<usize>,
    o_old: Seq<(usize, GridPosition)>,
    o2: Seq<(usize, GridPosition)>,
)
    requires
        g_old.len() == CELL_COUNT,
        closed_inv(s, g_old, o_old, current.0 as int),
        n.valid(),
        tentative != no_score(),
        open_has(o2, n),
        forall|q: GridPosition| open_has(o_old, q) ==> open_has(o2, q),
    ensures
        closed_inv(s, g_old.update(n.0 as int, tentative), o2, current.0 as int),
{
    reveal(closed_inv);
    let g2 = g_old.update(n.0 as int, tentative);
    assert forall|i: int|
        #![trigger g2[i]]
        0 <= i < CELL_COUNT && g2[i] != no_score() && i != current.0 implies open_has(o2, GridPosition(i as usize))
            || expanded(s, g2, i) by {
        if i != n.0 {
            assert(g_old[i] == g2[i]);
            if !open_has(o_old, GridPosition(i as usize)) {
                assert(expanded(s, g_old, i));
                assert forall|m: GridPosition|
                    #![trigger GridPosition(i as usize).adjacent(m)]
                    GridPosition(i as usize).adjacent(m) && s[m.0 as int] implies g2[m.0 as int] != no_score() by {
                    if m.0 != n.0 {
                        assert(g_old[m.0 as int] == g2[m.0 as int]);
                    }
                }
            }
        } else {
            assert(GridPosition(i as usize) == n);
        }
    }
}

/// A* search from `start` to `goal` through the cells open in `allowed`,
/// guided by the Manhattan distance. Returns a walk from `start` to `goal`,
/// visiting no cell twice, exactly when one exists.
pub fn a_star_pathfinding(start: GridPosition, goal: GridPosition, allowed: &Vec<bool>) -> (r: Option<
    Vec<GridPosition>,
>)
    requires
        start.valid(),
        goal.valid(),
        allowed@.len() == CELL_COUNT,
    ensures
        r is Some <==> reachable(allowed@, start, goal),
        r matches Some(p) ==> is_path(allowed@, p@, start, goal),
        r matches Some(p) ==> p@.no_duplicates(),
{
    let ghost s = allowed@;
    let mut open: Vec<(usize, GridPosition)> = Vec::new();
    let (came_from, mut g_score) = fresh_tables();
    let mut came_from = came_from;
    let ghost g0 = g_score@;
    g_score.set(start.i(), 0);
    let f_start = base_heuristic(start, goal);
    open.push((f_start, start));
    proof {
        assert(open@[0].1 == start);
        lemma_search_start(s, start, goal, g0, came_from@, open@);
        lemma_seq_sum_nonneg(g_score@);
    }
    loop
        invariant
            start.valid(),
            goal.valid(),
            s == allowed@,
            g_score@.len() == CELL_COUNT,
            came_from@.len() == CELL_COUNT,
            tables_ok(s, start, g_score@, came_from@),
            open_ok(g_score@, open@),
            closed_inv(s, g_score@, open@, -1),
            g_score@[goal.0 as int] != no_score() ==> open_has(open@, goal),
        decreases seq_sum(g_score@), open@.len(),
    {
        if open.len() == 0 {
            proof {
                lemma_exhausted(s, start, goal, g_score@, came_from@, open@);
            }
            return None;
        }
        let idx = lowest_f(&open);
        let ghost open_before = open@;
        let ghost sum0 = seq_sum(g_score@);
        let (_, current) = open.remove(idx);
        proof {
            lemma_pop_open(s, start, g_score@, came_from@, open_before, idx as int);
        }
        if current == goal {
            return Some(reconstruct(start, goal, &came_from, &g_score, allowed));
        }
        let ghost len0 = open@.len();
        let gc = g_score[current.i()];
        let ns = current.neighbors();
        let mut j: usize = 0;
        while j < ns.len()
            invariant
                start.valid(),
                goal.valid(),
                current.valid(),
                s == allowed@,
                g_score@.len() == CELL_COUNT,
                came_from@.len() == CELL_COUNT,
                tables_ok(s, start, g_score@, came_from@),
                open_ok(g_score@, open@),
                closed_inv(s, g_score@, open@, current.0 as int),
                g_score@[goal.0 as int] != no_score() ==> open_has(open@, goal),
                gc == g_score@[current.0 as int],
                gc < CELL_COUNT,
                j <= ns@.len(),
                forall|k: int| 0 <= k < ns@.len() ==> (#[trigger] ns@[k]).valid(),
                forall|q: GridPosition| ns@.contains(q) <==> current.adjacent(q),
                forall|k: int|
                    0 <= k < j && s[ns@[k].0 as int] ==> g_score@[(#[trigger] ns@[k]).0 as int] != no_score(),
                seq_sum(g_score@) <= sum0,
                open@.len() >= len0,
                open@.len() > len0 ==> seq_sum(g_score@) < sum0,
            decreases ns@.len() - j,
        {
            let n = ns[j];
            proof {
                assert(ns@.contains(n));
            }
            let ghost g_old = g_score@;
            let ghost o_old = open@;
            relax(current, n, gc, start, goal, allowed, &mut g_score, &mut came_from, &mut open);
            proof {
                if g_score@[goal.0 as int] != no_score() {
                    if goal.0 != n.0 {
                        assert(g_old[goal.0 as int] == g_score@[goal.0 as int]);
                    } else if g_old[goal.0 as int] == g_score@[goal.0 as int] {
                        assert(goal == n);
                    }
                }
                assert forall|k: int|
                    0 <= k < j + 1 && s[ns@[k].0 as int] implies g_score@[(#[trigger] ns@[k]).0 as int]
                    != no_score() by {
                    if k < j {
                        assert(g_old[ns@[k].0 as int] != no_score());
                    }
                }
            }
            j = j + 1;
        }
        proof {
            lemma_finish_expansion(s, g_score@, open@, current, ns@);
            assert(open_before.len() == len0 + 1);
            lemma_seq_sum_nonneg(g_score@);
            assert(seq_sum(g_score@) < sum0 || (seq_sum(g_score@) == sum0 && open@.len() < open_before.len()));
        }
    }
}

/// Once every allowed neighbour of `current` is scored, `current` obeys the
/// closure invariant too.
proof fn lemma_finish_expansion(
    s: Seq<bool>,
    g: Seq<usize>,
    open: Seq<(usize, GridPosition)>,
    current: GridPosition,
    ns: Seq<GridPosition>,
)
    requires
        closed_inv(s, g, open, current.0 as int),
        forall|q: GridPosition| ns.contains(q) <==> current.adjacent(q),
        forall|k: int| 0 <= k < ns.len() && s[ns[k].0 as int] ==> g[(#[trigger] ns[k]).0 as int] != no_score(),
    ensures
        closed_inv(s, g, open, -1),
{
    reveal(closed_inv);
    assert(expanded(s, g, current.0 as int)) by {
        assert forall|m: GridPosition|
            #![trigger GridPosition(current.0).adjacent(m)]
            GridPosition(current.0).adjacent(m) && s[m.0 as int] implies g[m.0 as int] != no_score() by {
            assert(GridPosition(current.0) == current);
            assert(ns.contains(m));
            let k = choose|k: int| 0 <= k < ns.len() && ns[k] == m;
        }
    }
}

/// Relaxes the step from `current` to its neighbour `n`: where `n` is allowed
/// and the step improves its g-score, `n` gets `current` as predecessor and,
/// unless it has one, an open entry. The entry's priority is the new g-score
/// plus the Manhattan distance to `target`.
fn relax(
    current: GridPosition,
    n: GridPosition,
    gc: usize,
    start: GridPosition,
    target: GridPosition,
    allowed: &Vec<bool>,
    g_score: &mut Vec<usize>,
    came_from: &mut Vec<Option<GridPosition>>,
    open: &mut Vec<(usize, GridPosition)>,
)
    requires
        tables_ok(allowed@, start, old(g_score)@, old(came_from)@),
        open_ok(old(g_score)@, old(open)@),
        closed_inv(allowed@, old(g_score)@, old(open)@, current.0 as int),
        current.valid(),
        target.valid(),
        current.adjacent(n),
        gc == old(g_score)@[current.0 as int],
        gc < CELL_COUNT,
    ensures
        tables_ok(allowed@, start, final(g_score)@, final(came_from)@),
        final(g_score)@.len() == old(g_score)@.len(),
        final(came_from)@.len() == old(came_from)@.len(),
        open_ok(final(g_score)@, final(open)@),
        closed_inv(allowed@, final(g_score)@, final(open)@, current.0 as int),
        forall|q: GridPosition| open_has(old(open)@, q) ==> open_has(final(open)@, q),
        forall|i: int| 0 <= i < CELL_COUNT && i != n.0 ==> final(g_score)@[i] == old(g_score)@[i],
        final(g_score)@[n.0 as int] != old(g_score)@[n.0 as int] ==> open_has(final(open)@, n),
        final(g_score)@[current.0 as int] == gc,
        allowed@[n.0 as int] ==> final(g_score)@[n.0 as int] != no_score(),
        forall|i: int|
            0 <= i < CELL_COUNT && old(g_score)@[i] != no_score() ==> #[trigger] final(g_score)@[i] != no_score(),
        seq_sum(final(g_score)@) <= seq_sum(old(g_score)@),
        final(open)@.len() >= old(open)@.len(),
        final(open)@.len() > old(open)@.len() ==> seq_sum(final(g_score)@) < seq_sum(old(g_score)@),
        forall|k: int| 0 <= k < old(open)@.len() ==> final(open)@[k] == old(open)@[k],
        forall|k: int|
            old(open)@.len() <= k < final(open)@.len() ==> final(open)@[k] == (final(g_score)@[n.0 as int], n)
                || final(open)@[k].1 == n,
{
    proof {
        lemma_adjacent_distinct(current, n);
        lemma_tables_basic(allowed@, start, old(g_score)@, old(came_from)@);
    }
    if !allowed[n.i()] {
        return;
    }
    let tentative = gc + 1;
    if tentative >= g_score[n.i()] {
        return;
    }
    let ghost g_old = g_score@;
    let ghost c_old = came_from@;
    let ghost o_old = open@;
    came_from.set(n.i(), Some(current));
    g_score.set(n.i(), tentative);
    proof {
        lemma_seq_sum_update(g_old, n.0 as int, tentative);
    }
    if !open_contains(open, n) {
        let priority = tentative + base_heuristic(n, target);
        open.push((priority, n));
        proof {
            assert(open@[open@.len() - 1].1 == n);
        }
    }
    proof {
        if o_old.len() == open@.len() {
            assert(open@ == o_old);
        }
        lemma_relax(s_of(allowed), start, current, n, tentative, g_old, c_old, o_old, open@);
        assert forall|i: int| 0 <= i < CELL_COUNT && g_old[i] != no_score() implies #[trigger] g_score@[i]
            != no_score() by {
            if i != n.0 {
                assert(g_old[i] == g_score@[i]);
            }
        }
    }
}

/// The view of an allowed-mask.
spec fn s_of(allowed: &Vec<bool>) -> Seq<bool> {
    allowed@
}

/// Follows the predecessor links back from `goal` to `start` and returns the
/// walk in forward order.
fn reconstruct(
    start: GridPosition,
    goal: GridPosition,
    came_from: &Vec<Option<GridPosition>>,
    g_score: &Vec<usize>,
    allowed: &Vec<bool>,
) -> (r: Vec<GridPosition>)
    requires
        goal.valid(),
        g_score@[goal.0 as int] != no_score(),
        tables_ok(allowed@, start, g_score@, came_from@),
    ensures
        is_path(allowed@, r@, start, goal),
        r@.no_duplicates(),
{
    let ghost s = allowed@;
    let mut rev: Vec<GridPosition> = Vec::new();
    rev.push(goal);
    let mut cur = goal;
    proof {
        lemma_tables_basic(s, start, g_score@, came_from@);
    }
    loop
        invariant
            tables_ok(s, start, g_score@, came_from@),
            s == allowed@,
            start.valid(),
            g_score@.len() == CELL_COUNT,
            came_from@.len() == CELL_COUNT,
            g_score@[start.0 as int] == 0,
            came_from@[start.0 as int] is None,
            cur.valid(),
            g_score@[cur.0 as int] != no_score(),
            rev@.len() >= 1,
            rev@[0] == goal,
            rev@.last() == cur,
            forall|k: int| 0 <= k < rev@.len() - 1 ==> #[trigger] step_ok(s, rev@[k + 1], rev@[k]),
            forall|a: int, b: int|
                #![trigger rev@[a], rev@[b]]
                0 <= a < b < rev@.len() ==> g_score@[rev@[b].0 as int] < g_score@[rev@[a].0 as int],
        ensures
            came_from@[cur.0 as int] is None,
            cur.valid(),
            g_score@[cur.0 as int] != no_score(),
            rev@.len() >= 1,
            rev@[0] == goal,
            rev@.last() == cur,
            forall|k: int| 0 <= k < rev@.len() - 1 ==> #[trigger] step_ok(s, rev@[k + 1], rev@[k]),
            forall|a: int, b: int|
                #![trigger rev@[a], rev@[b]]
                0 <= a < b < rev@.len() ==> g_score@[rev@[b].0 as int] < g_score@[rev@[a].0 as int],
        decreases g_score@[cur.0 as int],
    {
        match came_from[cur.i()] {
            Some(p) => {
                proof {
                    let i = cur.0 as int;
                    lemma_scored(s, start, g_score@, came_from@, i);
                    assert(GridPosition(i as usize) == cur);
                }
                let ghost old_rev = rev@;
                rev.push(p);
                proof {
                    assert forall|k: int| 0 <= k < rev@.len() - 1 implies #[trigger] step_ok(s, rev@[k + 1], rev@[k]) by {
                        if k < old_rev.len() - 1 {
                            assert(step_ok(s, old_rev[k + 1], old_rev[k]));
                        } else {
                            assert(rev@[k] == cur && rev@[k + 1] == p);
                        }
                    }
                    assert forall|a: int, b: int|
                        #![trigger rev@[a], rev@[b]]
                        0 <= a < b < rev@.len() implies g_score@[rev@[b].0 as int] < g_score@[rev@[a].0 as int] by {
                        if b < old_rev.len() {
                            assert(old_rev[a] == rev@[a] && old_rev[b] == rev@[b]);
                        } else if a < old_rev.len() - 1 {
                            assert(old_rev[a] == rev@[a]);
                            assert(g_score@[old_rev[old_rev.len() - 1].0 as int] < g_score@[old_rev[a].0 as int]);
                        }
                    }
                }
                cur = p;
            },
            None => {
                break;
            },
        }
    }
    proof {
        if cur.0 != start.0 {
            lemma_scored(s, start, g_score@, came_from@, cur.0 as int);
        }
        assert(cur == start);
    }
    let n = rev.len();
    let mut path: Vec<GridPosition> = Vec::new();
    let mut k: usize = 0;
    while k < n
        invariant
            n == rev@.len(),
            k <= n,
            path@.len() == k,
            forall|j: int| 0 <= j < k ==> path@[j] == rev@[n - 1 - j],
        decreases n - k,
    {
        path.push(rev[n - 1 - k]);
        k = k + 1;
    }
    proof {
        assert forall|j: int| 0 <= j < path@.len() - 1 implies #[trigger] step_ok(s, path@[j], path@[j + 1]) by {
            let kk = n - 2 - j;
            assert(step_ok(s, rev@[kk + 1], rev@[kk]));
        }
        assert forall|a: int, b: int| 0 <= a < path@.len() && 0 <= b < path@.len() && a != b implies path@[a]
            != path@[b] by {
            let ra = n - 1 - a;
            let rb = n - 1 - b;
            if ra < rb {
                assert(g_score@[rev@[rb].0 as int] < g_score@[rev@[ra].0 as int]);
            } else {
                assert(g_score@[rev@[ra].0 as int] < g_score@[rev@[rb].0 as int]);
            }
        }
    }
    path
}

} // verus!
