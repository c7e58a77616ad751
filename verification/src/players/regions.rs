use vstd::prelude::*;

use crate::engine::grid::occupied;
use crate::engine::grid_cell::GridCell;
use crate::engine::grid_position::{GridPosition, CELL_COUNT};
use crate::players::jack_papel_bots::search::{is_path, reachable, step_ok};

verus! {

/// The cells a search may step on: empty on the field and not yet used by
/// the line of play being explored.
pub open spec fn open_mask(s: Seq<GridCell>, visited: Seq<bool>) -> Seq<bool> {
    Seq::new(CELL_COUNT as nat, |i: int| !occupied(s, GridPosition(i as usize)) && !visited[i])
}

/// Some walk of exactly `n` steps leads from `start` to `q`.
pub open spec fn walk_len(allowed: Seq<bool>, start: GridPosition, q: GridPosition, n: nat) -> bool {
    exists|p: Seq<GridPosition>| #[trigger] is_path(allowed, p, start, q) && p.len() == n + 1
}

/// The fewest steps from `start` to `q` are `d`.
pub open spec fn distance_is(allowed: Seq<bool>, start: GridPosition, q: GridPosition, d: nat) -> bool {
    &&& walk_len(allowed, start, q, d)
    &&& forall|e: nat| #![trigger walk_len(allowed, start, q, e)] e < d ==> !walk_len(allowed, start, q, e)
}

/// Cell `i` is `start` or can be reached from it.
pub open spec fn in_region(allowed: Seq<bool>, start: GridPosition, i: int) -> bool {
    i == start.0 || reachable(allowed, start, GridPosition(i as usize))
}

/// The number of `true` entries of `s`.
pub open spec fn count_true(s: Seq<bool>) -> nat
    decreases s.len(),
{
    if s.len() == 0 {
        0
    } else {
        count_true(s.drop_last()) + if s.last() {
            1nat
        } else {
            0nat
        }
    }
}

/// The number of cells of the region of `start`.
pub open spec fn region_size(allowed: Seq<bool>, start: GridPosition) -> nat {
    count_true(Seq::new(CELL_COUNT as nat, |i: int| in_region(allowed, start, i)))
}

/// Setting one entry changes the count by what that entry gained or lost.
pub proof fn lemma_count_true_update(s: Seq<bool>, i: int, v: bool)
    requires
        0 <= i < s.len(),
    ensures
        count_true(s.update(i, v)) + (if s[i] {
            1int
        } else {
            0int
        }) == count_true(s) + (if v {
            1int
        } else {
            0int
        }),
    decreases s.len(),
{
    let t = s.update(i, v);
    if i == s.len() - 1 {
        assert(t.drop_last() =~= s.drop_last());
    } else {
        assert(t.drop_last() =~= s.drop_last().update(i, v));
        lemma_count_true_update(s.drop_last(), i, v);
    }
}

/// No more entries are `true` than there are entries.
pub proof fn lemma_count_true_bound(s: Seq<bool>)
    ensures
        count_true(s) <= s.len(),
    decreases s.len(),
{
    if s.len() > 0 {
        lemma_count_true_bound(s.drop_last());
    }
}

/// With no entry `true` the count is zero.
pub proof fn lemma_count_true_none(s: Seq<bool>)
    requires
        forall|i: int| 0 <= i < s.len() ==> !s[i],
    ensures
        count_true(s) == 0,
    decreases s.len(),
{
    if s.len() > 0 {
        lemma_count_true_none(s.drop_last());
    }
}

/// A walk to `c` followed by an allowed step to `q` is a walk to `q`.
pub proof fn lemma_path_push(allowed: Seq<bool>, p: Seq<GridPosition>, start: GridPosition, c: GridPosition, q: GridPosition)
    requires
        is_path(allowed, p, start, c),
        step_ok(allowed, c, q),
    ensures
        is_path(allowed, p.push(q), start, q),
{
    let p2 = p.push(q);
    assert forall|k: int| 0 <= k < p2.len() - 1 implies #[trigger] step_ok(allowed, p2[k], p2[k + 1]) by {
        if k < p.len() - 1 {
            assert(step_ok(allowed, p[k], p[k + 1]));
        }
    }
}

/// The trivial walk.
pub proof fn lemma_path_start(allowed: Seq<bool>, start: GridPosition)
    ensures
        is_path(allowed, seq![start], start, start),
        walk_len(allowed, start, start, 0),
        in_region(allowed, start, start.0 as int),
{
    assert(is_path(allowed, seq![start], start, start));
}

/// Where `c` is in the region and `q` one allowed step away, `q` is in the
/// region too.
pub proof fn lemma_region_step(allowed: Seq<bool>, start: GridPosition, c: GridPosition, q: GridPosition)
    requires
        in_region(allowed, start, c.0 as int),
        step_ok(allowed, c, q),
    ensures
        in_region(allowed, start, q.0 as int),
        reachable(allowed, start, q),
{
    if c.0 == start.0 {
        assert(c == start);
        lemma_path_start(allowed, start);
        lemma_path_push(allowed, seq![start], start, c, q);
    } else {
        assert(GridPosition(c.0 as usize) == c);
        let p = choose|p: Seq<GridPosition>| #[trigger] is_path(allowed, p, start, c);
        lemma_path_push(allowed, p, start, c, q);
    }
    assert(GridPosition(q.0 as usize) == q);
}

/// A walk of `n + 1` steps ends with a step from a cell reached in `n`
/// steps.
pub proof fn lemma_walk_pred(allowed: Seq<bool>, start: GridPosition, q: GridPosition, n: nat) -> (u: GridPosition)
    requires
        walk_len(allowed, start, q, n + 1),
    ensures
        walk_len(allowed, start, u, n),
        step_ok(allowed, u, q),
{
    let p = choose|p: Seq<GridPosition>| #[trigger] is_path(allowed, p, start, q) && p.len() == n + 2;
    let p0 = p.drop_last();
    let u = p0.last();
    assert(step_ok(allowed, p[p.len() - 2], p[(p.len() - 2) + 1]));
    assert forall|k: int| 0 <= k < p0.len() - 1 implies #[trigger] step_ok(allowed, p0[k], p0[k + 1]) by {
        assert(step_ok(allowed, p[k], p[k + 1]));
    }
    assert(is_path(allowed, p0, start, u));
    u
}

/// Extending a walk of `n` steps by one allowed step gives one of `n + 1`.
pub proof fn lemma_walk_succ(allowed: Seq<bool>, start: GridPosition, c: GridPosition, q: GridPosition, n: nat)
    requires
        walk_len(allowed, start, c, n),
        step_ok(allowed, c, q),
    ensures
        walk_len(allowed, start, q, n + 1),
{
    let p = choose|p: Seq<GridPosition>| #[trigger] is_path(allowed, p, start, c) && p.len() == n + 1;
    lemma_path_push(allowed, p, start, c, q);
    assert(is_path(allowed, p.push(q), start, q) && p.push(q).len() == n + 2);
}

/// If the marked cells include `start` and every marked cell has all its
/// allowed neighbours marked, every cell of a walk from `start` is marked.
pub proof fn lemma_marked_closed(
    allowed: Seq<bool>,
    marked: Seq<bool>,
    p: Seq<GridPosition>,
    start: GridPosition,
    goal: GridPosition,
    k: int,
)
    requires
        is_path(allowed, p, start, goal),
        marked.len() == CELL_COUNT,
        start.valid(),
        marked[start.0 as int],
        forall|i: int, m: GridPosition|
            #![trigger marked[i], GridPosition(i as usize).adjacent(m)]
            0 <= i < CELL_COUNT && marked[i] && GridPosition(i as usize).adjacent(m) && m.valid()
                && allowed[m.0 as int] ==> marked[m.0 as int],
        0 <= k < p.len(),
    ensures
        p[k].valid(),
        marked[p[k].0 as int],
    decreases k,
{
    if k > 0 {
        lemma_marked_closed(allowed, marked, p, start, goal, k - 1);
        assert(step_ok(allowed, p[k - 1], p[(k - 1) + 1]));
        let i = p[k - 1].0 as int;
        assert(GridPosition(i as usize) == p[k - 1]);
        assert(marked[i]);
    }
}

/// A walk from `x` to `y` and one from `y` to `z` make one from `x` to `z`.
pub proof fn lemma_reach_join(m: Seq<bool>, x: GridPosition, y: GridPosition, z: GridPosition)
    requires
        reachable(m, x, y),
        reachable(m, y, z),
    ensures
        reachable(m, x, z),
{
    let p = choose|p: Seq<GridPosition>| #[trigger] is_path(m, p, x, y);
    let q = choose|q: Seq<GridPosition>| #[trigger] is_path(m, q, y, z);
    let r = p + q.subrange(1, q.len() as int);
    assert forall|k: int| 0 <= k < r.len() - 1 implies #[trigger] step_ok(m, r[k], r[k + 1]) by {
        if k < p.len() - 1 {
            assert(r[k] == p[k] && r[k + 1] == p[k + 1]);
            assert(step_ok(m, p[k], p[k + 1]));
        } else {
            let j = k - (p.len() - 1);
            assert(r[k] == q[j]);
            assert(r[k + 1] == q[j + 1]);
            assert(step_ok(m, q[j], q[j + 1]));
        }
    }
    if q.len() == 1 {
        assert(r =~= p);
    }
    assert(is_path(m, r, x, z));
}

/// A walk from an allowed cell `x` to `y`, run backwards, leads from `y` to
/// `x`.
pub proof fn lemma_reach_reverse(m: Seq<bool>, x: GridPosition, y: GridPosition)
    requires
        reachable(m, x, y),
        x.valid(),
        m[x.0 as int],
    ensures
        reachable(m, y, x),
{
    let p = choose|p: Seq<GridPosition>| #[trigger] is_path(m, p, x, y);
    let n = p.len() as int;
    let r = Seq::new(n as nat, |k: int| p[n - 1 - k]);
    assert forall|k: int| 0 <= k < r.len() - 1 implies #[trigger] step_ok(m, r[k], r[k + 1]) by {
        let i = n - 2 - k;
        assert(step_ok(m, p[i], p[i + 1]));
        if i > 0 {
            assert(step_ok(m, p[i - 1], p[(i - 1) + 1]));
        }
        let d = choose|d: crate::engine::direction::Direction| #[trigger] p[i].moved(d) == Some(p[i + 1]);
        crate::engine::grid_position::lemma_step_back(p[i], d);
        assert(p[i + 1].moved(d.reversed()) == Some(p[i]));
        assert(r[k] == p[i + 1] && r[k + 1] == p[i]);
    }
    assert(is_path(m, r, y, x));
}

/// Two cells of the region of an allowed cell `a` are in one region: where
/// `x` is allowed too, `y` lies in the region of `x`.
pub proof fn lemma_region_via(m: Seq<bool>, a: GridPosition, x: GridPosition, y: GridPosition)
    requires
        in_region(m, a, x.0 as int),
        in_region(m, a, y.0 as int),
        a.valid(),
        m[a.0 as int],
        x.valid(),
        m[x.0 as int],
    ensures
        in_region(m, x, y.0 as int),
{
    assert(GridPosition(x.0 as usize) == x);
    assert(GridPosition(y.0 as usize) == y);
    if x.0 != a.0 {
        lemma_reach_reverse(m, a, x);
        if y.0 != a.0 {
            lemma_reach_join(m, x, a, y);
        } else {
            assert(y == a);
        }
    } else {
        assert(x == a);
    }
}

/// A cell one step away from a cell on the field is one step back from it.
pub proof fn lemma_adjacent_sym(a: GridPosition, b: GridPosition)
    requires
        a.valid(),
        a.adjacent(b),
    ensures
        b.adjacent(a),
        b.valid(),
{
    let d = choose|d: crate::engine::direction::Direction| #[trigger] a.moved(d) == Some(b);
    crate::engine::grid_position::lemma_step_back(a, d);
    assert(b.moved(d.reversed()) == Some(a));
}

/// A stretch of a walk is a walk between its ends.
pub proof fn lemma_sub_walk(m: Seq<bool>, p: Seq<GridPosition>, start: GridPosition, goal: GridPosition, lo: int, hi: int)
    requires
        is_path(m, p, start, goal),
        0 <= lo <= hi < p.len(),
    ensures
        is_path(m, p.subrange(lo, hi + 1), p[lo], p[hi]),
        reachable(m, p[lo], p[hi]),
{
    let q = p.subrange(lo, hi + 1);
    assert forall|k: int| 0 <= k < q.len() - 1 implies #[trigger] step_ok(m, q[k], q[k + 1]) by {
        assert(step_ok(m, p[lo + k], p[(lo + k) + 1]));
    }
    assert(is_path(m, q, p[lo], p[hi]));
}

/// A walk whose cells after the first are all allowed by `m2` is a walk
/// through `m2`.
pub proof fn lemma_walk_within(m: Seq<bool>, m2: Seq<bool>, p: Seq<GridPosition>, start: GridPosition, goal: GridPosition)
    requires
        is_path(m, p, start, goal),
        forall|k: int| 1 <= k < p.len() ==> m2[(#[trigger] p[k]).0 as int],
    ensures
        is_path(m2, p, start, goal),
        reachable(m2, start, goal),
{
    assert forall|k: int| 0 <= k < p.len() - 1 implies #[trigger] step_ok(m2, p[k], p[k + 1]) by {
        assert(step_ok(m, p[k], p[k + 1]));
        assert(m2[p[k + 1].0 as int]);
    }
    assert(is_path(m2, p, start, goal));
}

/// Regions chain: where `a` lies in the region of `x` and `b` in that of
/// `a`, `b` lies in the region of `x`.
pub proof fn lemma_region_chain(m: Seq<bool>, x: GridPosition, a: GridPosition, b: GridPosition)
    requires
        in_region(m, x, a.0 as int),
        in_region(m, a, b.0 as int),
    ensures
        in_region(m, x, b.0 as int),
{
    assert(GridPosition(a.0 as usize) == a);
    assert(GridPosition(b.0 as usize) == b);
    if a.0 == x.0 {
        assert(a == x);
    } else if b.0 != a.0 {
        lemma_reach_join(m, x, a, b);
    }
}

} // verus!
