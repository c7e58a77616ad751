use vstd::prelude::*;

use std::collections::VecDeque;

use crate::engine::grid::{occupied, Grid};
use crate::engine::direction::{counterclockwise, Direction};
use crate::engine::grid_cell::GridCell;
use crate::engine::grid_position::{GridPosition, CELL_COUNT, GRID_SIZE};
use crate::clock::{now, within_budget};
use crate::engine::bot::Bot;
use crate::engine::game_state::GameState;
use crate::engine::grid::head_position;
use crate::engine::player_id::PlayerId;
use crate::players::jack_papel_bots::empty_cells;
use crate::players::jack_papel_bots::search::{is_path, step_ok};
use crate::players::regions::{
    distance_is, lemma_walk_pred, lemma_walk_succ, walk_len,
    count_true, in_region, lemma_count_true_bound, lemma_count_true_none, lemma_count_true_update, lemma_marked_closed,
    lemma_path_start, lemma_region_step, open_mask, region_size,
};

verus! {

/// A cell of the region of `start` lies next to `target`.
pub open spec fn touches(allowed: Seq<bool>, start: GridPosition, target: GridPosition) -> bool {
    exists|q: GridPosition| #[trigger] in_region(allowed, start, q.0 as int) && q.valid() && q.adjacent(target)
}

/// A table of `CELL_COUNT` entries that are all `false`.
pub fn all_false() -> (r: Vec<bool>)
    ensures
        r@.len() == CELL_COUNT,
        forall|i: int| 0 <= i < CELL_COUNT ==> !r@[i],
        r@ == none_marked(),
{
    let mut r: Vec<bool> = Vec::new();
    let mut k: usize = 0;
    while k < CELL_COUNT
        invariant
            k <= CELL_COUNT,
            r@.len() == k,
            forall|i: int| 0 <= i < k ==> !r@[i],
        decreases CELL_COUNT - k,
    {
        r.push(false);
        k = k + 1;
    }
    assert(r@ =~= none_marked());
    r
}

/// Searches the empty cells that can be reached from `my_pos`; `false` as
/// soon as one of them (or `my_pos` itself) lies next to `opp_pos`, `true`
/// when none does.
pub fn is_separated(grid: &Grid, my_pos: GridPosition, opp_pos: GridPosition) -> (r: bool)
    requires
        grid@.len() == CELL_COUNT,
        my_pos.valid(),
    ensures
        r == !touches(empty_cells(grid@), my_pos, opp_pos),
{
    let ghost s = empty_cells(grid@);
    let mut q: VecDeque<GridPosition> = VecDeque::with_capacity(150);
    let mut visited = all_false();
    q.push_back(my_pos);
    visited.set(my_pos.i(), true);
    proof {
        lemma_path_start(s, my_pos);
        lemma_count_true_update(none_marked(), my_pos.0 as int, true);
    }
    let ghost mut v0 = visited@;
    loop
        invariant
            grid@.len() == CELL_COUNT,
            my_pos.valid(),
            s == empty_cells(grid@),
            visited@.len() == CELL_COUNT,
            visited@[my_pos.0 as int],
            forall|i: int| 0 <= i < CELL_COUNT && #[trigger] visited@[i] ==> in_region(s, my_pos, i),
            forall|k: int| 0 <= k < q@.len() ==> (#[trigger] q@[k]).valid() && visited@[q@[k].0 as int],
            forall|i: int, m: GridPosition|
                #![trigger visited@[i], GridPosition(i as usize).adjacent(m)]
                0 <= i < CELL_COUNT && visited@[i] && !q@.contains(GridPosition(i as usize)) && GridPosition(
                    i as usize,
                ).adjacent(m) ==> m != opp_pos && (m.valid() && s[m.0 as int] ==> visited@[m.0 as int]),
        decreases CELL_COUNT - count_true(visited@), q@.len(),
    {
        let ghost before = q@;
        let ghost vis0 = visited@;
        let curr = match q.pop_front() {
            Some(c) => c,
            None => {
                proof {
                    assert(q@ =~= Seq::<GridPosition>::empty());
                    if touches(s, my_pos, opp_pos) {
                        let x = choose|x: GridPosition|
                            #[trigger] in_region(s, my_pos, x.0 as int) && x.valid() && x.adjacent(opp_pos);
                        if x.0 != my_pos.0 {
                            let p = choose|p: Seq<GridPosition>|
                                #[trigger] is_path(s, p, my_pos, GridPosition(x.0 as usize));
                            lemma_marked_closed(s, visited@, p, my_pos, GridPosition(x.0 as usize), p.len() - 1);
                        }
                        assert(GridPosition(x.0 as usize) == x);
                        assert(visited@[x.0 as int]);
                        assert(!q@.contains(GridPosition(x.0 as usize)));
                    }
                }
                return true;
            },
        };
        proof {
            assert(before[0] == curr);
            assert forall|k: int| 0 <= k < q@.len() implies (#[trigger] q@[k]).valid() && visited@[q@[k].0 as int] by {
                assert(q@[k] == before[k + 1]);
            }
            lemma_count_true_bound(visited@);
            assert forall|x: GridPosition| before.contains(x) && x != curr implies q@.contains(x) by {
                let k = choose|k: int| 0 <= k < before.len() && before[k] == x;
                assert(k != 0);
                assert(q@[k - 1] == x);
            }
        }
        let ns = curr.neighbors();
        let mut j: usize = 0;
        while j < ns.len()
            invariant
                grid@.len() == CELL_COUNT,
                my_pos.valid(),
                s == empty_cells(grid@),
                curr.valid(),
                visited@[curr.0 as int],
                in_region(s, my_pos, curr.0 as int),
                visited@.len() == CELL_COUNT,
                visited@[my_pos.0 as int],
                forall|i: int| 0 <= i < CELL_COUNT && #[trigger] visited@[i] ==> in_region(s, my_pos, i),
                forall|k: int| 0 <= k < q@.len() ==> (#[trigger] q@[k]).valid() && visited@[q@[k].0 as int],
                forall|i: int, m: GridPosition|
                    #![trigger visited@[i], GridPosition(i as usize).adjacent(m)]
                    0 <= i < CELL_COUNT && i != curr.0 && visited@[i] && !q@.contains(GridPosition(i as usize))
                        && GridPosition(i as usize).adjacent(m) ==> m != opp_pos && (m.valid() && s[m.0 as int]
                        ==> visited@[m.0 as int]),
                j <= ns@.len(),
                forall|k: int| 0 <= k < ns@.len() ==> (#[trigger] ns@[k]).valid(),
                forall|x: GridPosition| ns@.contains(x) <==> curr.adjacent(x),
                forall|k: int| 0 <= k < j ==> #[trigger] ns@[k] != opp_pos && (s[ns@[k].0 as int] ==> visited@[ns@[k].0 as int]),
                count_true(visited@) >= count_true(vis0),
                count_true(visited@) == count_true(vis0) ==> q@.len() == before.len() - 1,
                count_true(visited@) <= CELL_COUNT,
            decreases ns@.len() - j,
        {
            let n = ns[j];
            proof {
                assert(ns@.contains(n));
            }
            if n == opp_pos {
                proof {
                    assert(in_region(s, my_pos, curr.0 as int) && curr.valid() && curr.adjacent(opp_pos));
                }
                return false;
            }
            if n.is_empty(grid) && !visited[n.i()] {
                let ghost vb = visited@;
                let ghost qb = q@;
                visited.set(n.i(), true);
                q.push_back(n);
                proof {
                    lemma_count_true_update(vb, n.0 as int, true);
                    lemma_count_true_bound(visited@);
                    assert(step_ok(s, curr, n));
                    lemma_region_step(s, my_pos, curr, n);
                    assert forall|i: int| 0 <= i < CELL_COUNT && #[trigger] visited@[i] implies in_region(s, my_pos, i) by {
                        if i != n.0 {
                            assert(vb[i]);
                        }
                    }
                    assert forall|k: int| 0 <= k < q@.len() implies (#[trigger] q@[k]).valid() && visited@[q@[k].0 as int] by {
                        if k < qb.len() {
                            assert(q@[k] == qb[k]);
                        }
                    }
                    assert forall|i: int, m: GridPosition|
                        #![trigger visited@[i], GridPosition(i as usize).adjacent(m)]
                        0 <= i < CELL_COUNT && i != curr.0 && visited@[i] && !q@.contains(GridPosition(i as usize))
                            && GridPosition(i as usize).adjacent(m) implies m != opp_pos && (m.valid() && s[m.0 as int]
                            ==> visited@[m.0 as int]) by {
                        if i != n.0 {
                            assert(vb[i]);
                            if qb.contains(GridPosition(i as usize)) {
                                let k = choose|k: int| 0 <= k < qb.len() && qb[k] == GridPosition(i as usize);
                                assert(q@[k] == qb[k]);
                            }
                        } else {
                            assert(q@[q@.len() - 1] == n);
                        }
                    }
                }
            }
            j = j + 1;
        }
        proof {
            assert forall|i: int, m: GridPosition|
                #![trigger visited@[i], GridPosition(i as usize).adjacent(m)]
                0 <= i < CELL_COUNT && visited@[i] && !q@.contains(GridPosition(i as usize)) && GridPosition(
                    i as usize,
                ).adjacent(m) implies m != opp_pos && (m.valid() && s[m.0 as int] ==> visited@[m.0 as int]) by {
                if i == curr.0 {
                    assert(GridPosition(i as usize) == curr);
                    assert(ns@.contains(m));
                    let k = choose|k: int| 0 <= k < ns@.len() && ns@[k] == m;
                }
            }
        }
    }
}

/// Counts the cells of the region of `start`: `start` and every cell that
/// can be reached from it through cells that are empty and not in `visited`.
pub fn flood_fill_count(grid: &Grid, visited: &Vec<bool>, start: GridPosition) -> (r: u16)
    requires
        grid@.len() == CELL_COUNT,
        visited@.len() == CELL_COUNT,
        start.valid(),
    ensures
        r == region_size(open_mask(grid@, visited@), start),
{
    let ghost s = open_mask(grid@, visited@);
    let mut q: VecDeque<GridPosition> = VecDeque::with_capacity(150);
    let mut local_visited = visited.clone();
    proof {
        assert(local_visited@ =~= visited@);
    }
    let mut count: u16 = 0;
    q.push_back(start);
    local_visited.set(start.i(), true);
    let ghost mut newly: Seq<bool> = none_marked().update(start.0 as int, true);
    proof {
        lemma_path_start(s, start);
        lemma_count_true_update(none_marked(), start.0 as int, true);
        lemma_count_true_none(none_marked());
    }
    loop
        invariant
            grid@.len() == CELL_COUNT,
            visited@.len() == CELL_COUNT,
            start.valid(),
            s == open_mask(grid@, visited@),
            local_visited@.len() == CELL_COUNT,
            newly.len() == CELL_COUNT,
            newly[start.0 as int],
            forall|i: int| 0 <= i < CELL_COUNT ==> #[trigger] local_visited@[i] == (visited@[i] || newly[i]),
            forall|i: int| 0 <= i < CELL_COUNT && #[trigger] newly[i] ==> in_region(s, start, i),
            forall|k: int| 0 <= k < q@.len() ==> (#[trigger] q@[k]).valid() && newly[q@[k].0 as int],
            q@.no_duplicates(),
            count + q@.len() == count_true(newly),
            count_true(newly) <= CELL_COUNT,
            forall|i: int, m: GridPosition|
                #![trigger newly[i], GridPosition(i as usize).adjacent(m)]
                0 <= i < CELL_COUNT && newly[i] && !q@.contains(GridPosition(i as usize)) && GridPosition(
                    i as usize,
                ).adjacent(m) && m.valid() && s[m.0 as int] ==> newly[m.0 as int],
        decreases CELL_COUNT - count_true(newly), q@.len(),
    {
        let ghost before = q@;
        let ghost n0 = newly;
        let curr = match q.pop_front() {
            Some(c) => c,
            None => {
                proof {
                    let full = Seq::new(CELL_COUNT as nat, |i: int| in_region(s, start, i));
                    assert forall|i: int| 0 <= i < CELL_COUNT implies newly[i] == full[i] by {
                        if in_region(s, start, i) && i != start.0 {
                            let p = choose|p: Seq<GridPosition>|
                                #[trigger] is_path(s, p, start, GridPosition(i as usize));
                            lemma_marked_closed(s, newly, p, start, GridPosition(i as usize), p.len() - 1);
                        }
                    }
                    assert(newly =~= full);
                }
                return count;
            },
        };
        proof {
            assert(before[0] == curr);
            assert forall|k: int| 0 <= k < q@.len() implies (#[trigger] q@[k]).valid() && newly[q@[k].0 as int] by {
                assert(q@[k] == before[k + 1]);
            }
            assert forall|x: GridPosition| before.contains(x) && x != curr implies q@.contains(x) by {
                let k = choose|k: int| 0 <= k < before.len() && before[k] == x;
                assert(k != 0);
                assert(q@[k - 1] == x);
            }
            assert(!q@.contains(curr)) by {
                if q@.contains(curr) {
                    let k = choose|k: int| 0 <= k < q@.len() && q@[k] == curr;
                    assert(before[k + 1] == before[0]);
                }
            }
            assert(q@ =~= before.subrange(1, before.len() as int));
        }
        count = count + 1;
        let ns = curr.neighbors();
        let mut j: usize = 0;
        while j < ns.len()
            invariant
                grid@.len() == CELL_COUNT,
                visited@.len() == CELL_COUNT,
                start.valid(),
                s == open_mask(grid@, visited@),
                curr.valid(),
                newly[curr.0 as int],
                !q@.contains(curr),
                local_visited@.len() == CELL_COUNT,
                newly.len() == CELL_COUNT,
                newly[start.0 as int],
                forall|i: int| 0 <= i < CELL_COUNT ==> #[trigger] local_visited@[i] == (visited@[i] || newly[i]),
                forall|i: int| 0 <= i < CELL_COUNT && #[trigger] newly[i] ==> in_region(s, start, i),
                forall|k: int| 0 <= k < q@.len() ==> (#[trigger] q@[k]).valid() && newly[q@[k].0 as int],
                q@.no_duplicates(),
                count + q@.len() == count_true(newly),
                count_true(newly) <= CELL_COUNT,
                forall|i: int, m: GridPosition|
                    #![trigger newly[i], GridPosition(i as usize).adjacent(m)]
                    0 <= i < CELL_COUNT && i != curr.0 && newly[i] && !q@.contains(GridPosition(i as usize))
                        && GridPosition(i as usize).adjacent(m) && m.valid() && s[m.0 as int] ==> newly[m.0 as int],
                j <= ns@.len(),
                forall|k: int| 0 <= k < ns@.len() ==> (#[trigger] ns@[k]).valid(),
                forall|x: GridPosition| ns@.contains(x) <==> curr.adjacent(x),
                forall|k: int| 0 <= k < j && s[ns@[k].0 as int] ==> newly[(#[trigger] ns@[k]).0 as int],
                count_true(newly) >= count_true(n0),
                count_true(newly) == count_true(n0) ==> q@.len() == before.len() - 1,
            decreases ns@.len() - j,
        {
            let n = ns[j];
            proof {
                assert(ns@.contains(n));
            }
            if n.is_empty(grid) && !local_visited[n.i()] {
                let ghost nb = newly;
                let ghost qb = q@;
                local_visited.set(n.i(), true);
                q.push_back(n);
                proof {
                    newly = newly.update(n.0 as int, true);
                    lemma_count_true_update(nb, n.0 as int, true);
                    lemma_count_true_bound(newly);
                    assert(step_ok(s, curr, n));
                    lemma_region_step(s, start, curr, n);
                    assert forall|i: int| 0 <= i < CELL_COUNT && #[trigger] newly[i] implies in_region(s, start, i) by {
                        if i != n.0 {
                            assert(nb[i]);
                        }
                    }
                    assert forall|k: int| 0 <= k < q@.len() implies (#[trigger] q@[k]).valid() && newly[q@[k].0 as int] by {
                        if k < qb.len() {
                            assert(q@[k] == qb[k]);
                        }
                    }
                    assert(!qb.contains(n)) by {
                        if qb.contains(n) {
                            let k = choose|k: int| 0 <= k < qb.len() && qb[k] == n;
                            assert(nb[n.0 as int]);
                        }
                    }
                    assert forall|i: int, m: GridPosition|
                        #![trigger newly[i], GridPosition(i as usize).adjacent(m)]
                        0 <= i < CELL_COUNT && i != curr.0 && newly[i] && !q@.contains(GridPosition(i as usize))
                            && GridPosition(i as usize).adjacent(m) && m.valid() && s[m.0 as int] implies newly[m.0 as int] by {
                        if i != n.0 {
                            assert(nb[i]);
                            if qb.contains(GridPosition(i as usize)) {
                                let k = choose|k: int| 0 <= k < qb.len() && qb[k] == GridPosition(i as usize);
                                assert(q@[k] == qb[k]);
                            }
                        } else {
                            assert(q@[q@.len() - 1] == n);
                        }
                    }
                }
            }
            j = j + 1;
        }
        proof {
            assert forall|i: int, m: GridPosition|
                #![trigger newly[i], GridPosition(i as usize).adjacent(m)]
                0 <= i < CELL_COUNT && newly[i] && !q@.contains(GridPosition(i as usize)) && GridPosition(
                    i as usize,
                ).adjacent(m) && m.valid() && s[m.0 as int] implies newly[m.0 as int] by {
                if i == curr.0 {
                    assert(GridPosition(i as usize) == curr);
                    assert(ns@.contains(m));
                    let k = choose|k: int| 0 <= k < ns@.len() && ns@[k] == m;
                }
            }
        }
    }
}

/// The number of steps of a shortest walk from `start` to cell `i`, or
/// `u16::MAX` where no walk leads there.
pub open spec fn shortest(allowed: Seq<bool>, start: GridPosition, i: int) -> int {
    if in_region(allowed, start, i) {
        (choose|d: nat| #[trigger] distance_is(allowed, start, GridPosition(i as usize), d)) as int
    } else {
        u16::MAX as int
    }
}

/// Two shortest walks have the same length.
pub proof fn lemma_distance_unique(allowed: Seq<bool>, start: GridPosition, q: GridPosition, a: nat, b: nat)
    requires
        distance_is(allowed, start, q, a),
        distance_is(allowed, start, q, b),
    ensures
        a == b,
{
    if a < b {
        assert(walk_len(allowed, start, q, a));
    }
    if b < a {
        assert(walk_len(allowed, start, q, b));
    }
}

/// What the distance table of a breadth-first search from `start` says:
/// each distance found is the length of a shortest walk, and is smaller than
/// the number of cells found so far.
#[verifier::opaque]
pub open spec fn dists_ok(s: Seq<bool>, start: GridPosition, d: Seq<u16>) -> bool {
    &&& d.len() == CELL_COUNT
    &&& d[start.0 as int] == 0
    &&& forall|i: int|
        #![trigger d[i]]
        0 <= i < CELL_COUNT && d[i] != u16::MAX ==> in_region(s, start, i) && distance_is(
            s,
            start,
            GridPosition(i as usize),
            d[i] as nat,
        ) && d[i] < count_found(d)
}

/// The cells with a distance.
pub open spec fn found(d: Seq<u16>) -> Seq<bool> {
    Seq::new(d.len(), |i: int| d[i] != u16::MAX)
}

/// The number of cells with a distance.
pub open spec fn count_found(d: Seq<u16>) -> nat {
    count_true(found(d))
}

/// The queue holds found cells in order of distance, spanning at most two
/// consecutive distances.
#[verifier::opaque]
pub open spec fn queue_ok(d: Seq<u16>, q: Seq<GridPosition>) -> bool {
    &&& forall|k: int| 0 <= k < q.len() ==> (#[trigger] q[k]).valid() && d[q[k].0 as int] != u16::MAX
    &&& forall|a: int, b: int| 0 <= a <= b < q.len() ==> d[(#[trigger] q[a]).0 as int] <= d[(#[trigger] q[b]).0 as int]
    &&& q.len() > 0 ==> d[q[q.len() - 1].0 as int] <= d[q[0].0 as int] + 1
    &&& q.no_duplicates()
}

/// Every found cell but `skip` that has left the queue has all its allowed
/// neighbours found.
#[verifier::opaque]
pub open spec fn bfs_closed(s: Seq<bool>, d: Seq<u16>, q: Seq<GridPosition>, skip: int) -> bool {
    forall|i: int, m: GridPosition|
        #![trigger d[i], GridPosition(i as usize).adjacent(m)]
        0 <= i < CELL_COUNT && i != skip && d[i] != u16::MAX && !q.contains(GridPosition(i as usize))
            && GridPosition(i as usize).adjacent(m) && m.valid() && s[m.0 as int] ==> d[m.0 as int] != u16::MAX
}

/// Every cell with a walk shorter than `level` has been found.
#[verifier::opaque]
pub open spec fn levels_found(s: Seq<bool>, start: GridPosition, d: Seq<u16>, level: nat) -> bool {
    forall|v: GridPosition, e: nat|
        #![trigger walk_len(s, start, v, e)]
        walk_len(s, start, v, e) && e < level ==> v.valid() && d[v.0 as int] != u16::MAX
}

/// The end of a walk lies on the field.
pub proof fn lemma_walk_end_valid(s: Seq<bool>, start: GridPosition, v: GridPosition, e: nat)
    requires
        walk_len(s, start, v, e),
        start.valid(),
    ensures
        v.valid(),
{
    let p = choose|p: Seq<GridPosition>| #[trigger] is_path(s, p, start, v) && p.len() == e + 1;
    if p.len() > 1 {
        assert(step_ok(s, p[p.len() - 2], p[(p.len() - 2) + 1]));
    }
}

/// A shortest walk to `n` has `level + 1` steps when `n` is next to a cell at
/// distance `level`, has no distance yet, and every cell with a walk shorter
/// than `level` has been found and expanded.
pub proof fn lemma_new_distance(
    s: Seq<bool>,
    start: GridPosition,
    d: Seq<u16>,
    q: Seq<GridPosition>,
    curr: GridPosition,
    n: GridPosition,
    level: nat,
)
    requires
        dists_ok(s, start, d),
        start.valid(),
        bfs_closed(s, d, q, curr.0 as int),
        levels_found(s, start, d, level),
        forall|k: int| 0 <= k < q.len() ==> d[(#[trigger] q[k]).0 as int] >= level,
        curr.valid(),
        d[curr.0 as int] == level,
        level < CELL_COUNT,
        step_ok(s, curr, n),
        d[n.0 as int] == u16::MAX,
    ensures
        distance_is(s, start, n, level + 1),
        in_region(s, start, n.0 as int),
{
    reveal(dists_ok);
    reveal(bfs_closed);
    reveal(levels_found);
    assert(GridPosition(curr.0 as usize) == curr);
    assert(distance_is(s, start, curr, level as nat));
    lemma_walk_succ(s, start, curr, n, level);
    lemma_region_step(s, start, curr, n);
    assert forall|e: nat| #![trigger walk_len(s, start, n, e)] e < level + 1 implies !walk_len(s, start, n, e) by {
        if walk_len(s, start, n, e) {
            if e == 0 {
                let p = choose|p: Seq<GridPosition>| #[trigger] is_path(s, p, start, n) && p.len() == e + 1;
                assert(n == start);
            } else {
                let u = lemma_walk_pred(s, start, n, (e - 1) as nat);
                lemma_walk_end_valid(s, start, u, (e - 1) as nat);
                assert(d[u.0 as int] != u16::MAX);
                assert(GridPosition(u.0 as usize) == u);
                assert(distance_is(s, start, u, d[u.0 as int] as nat));
                assert(d[u.0 as int] <= e - 1);
                assert(u.0 != curr.0);
                if q.contains(u) {
                    let k = choose|k: int| 0 <= k < q.len() && q[k] == u;
                    assert(d[q[k].0 as int] >= level);
                }
                assert(GridPosition(u.0 as usize).adjacent(n));
            }
        }
    }
}

/// Breadth-first search from `start` through cells that are empty and not in
/// `visited`: afterwards each cell of the region of `start` holds the number
/// of steps of a shortest walk to it, and every other cell keeps `u16::MAX`.
pub fn fast_bfs(grid: &Grid, visited: &Vec<bool>, start: GridPosition, dists: &mut Vec<u16>)
    requires
        grid@.len() == CELL_COUNT,
        visited@.len() == CELL_COUNT,
        start.valid(),
        old(dists)@.len() == CELL_COUNT,
        forall|i: int| 0 <= i < CELL_COUNT ==> old(dists)@[i] == u16::MAX,
    ensures
        final(dists)@.len() == CELL_COUNT,
        forall|i: int|
            0 <= i < CELL_COUNT ==> (#[trigger] final(dists)@[i] != u16::MAX) == in_region(
                open_mask(grid@, visited@),
                start,
                i,
            ),
        forall|i: int|
            0 <= i < CELL_COUNT && #[trigger] final(dists)@[i] != u16::MAX ==> distance_is(
                open_mask(grid@, visited@),
                start,
                GridPosition(i as usize),
                final(dists)@[i] as nat,
            ),
        forall|i: int|
            0 <= i < CELL_COUNT ==> final(dists)@[i] as int == #[trigger] shortest(open_mask(grid@, visited@), start, i),
{
    let ghost s = open_mask(grid@, visited@);
    let mut q: VecDeque<GridPosition> = VecDeque::with_capacity(150);
    let ghost d0 = dists@;
    dists.set(start.i(), 0);
    q.push_back(start);
    proof {
        lemma_bfs_start(s, start, d0, dists@, q@);
    }
    loop
        invariant
            grid@.len() == CELL_COUNT,
            visited@.len() == CELL_COUNT,
            start.valid(),
            s == open_mask(grid@, visited@),
            dists@.len() == CELL_COUNT,
            dists_ok(s, start, dists@),
            queue_ok(dists@, q@),
            bfs_closed(s, dists@, q@, -1),
            q@.len() > 0 ==> levels_found(s, start, dists@, dists@[q@[0].0 as int] as nat),
        decreases CELL_COUNT - count_found(dists@), q@.len(),
    {
        let ghost before = q@;
        let ghost dbefore = dists@;
        let curr = match q.pop_front() {
            Some(c) => c,
            None => {
                proof {
                    lemma_bfs_done(s, start, dists@, q@);
                }
                return;
            },
        };
        proof {
            lemma_bfs_pop(s, start, dists@, before, q@, curr);
        }
        let ghost level = dists@[curr.0 as int] as nat;
        let d = dists[curr.i()] + 1;
        let ns = curr.neighbors();
        let mut j: usize = 0;
        while j < ns.len()
            invariant
                grid@.len() == CELL_COUNT,
                visited@.len() == CELL_COUNT,
                start.valid(),
                s == open_mask(grid@, visited@),
                curr.valid(),
                dists@.len() == CELL_COUNT,
                dists@[curr.0 as int] == level,
                level < CELL_COUNT,
                d == level + 1,
                dists_ok(s, start, dists@),
                !q@.contains(curr),
                forall|k: int| 0 <= k < q@.len() ==> (#[trigger] q@[k]).valid() && level <= dists@[q@[k].0 as int] <= level + 1,
                forall|a: int, b: int| 0 <= a <= b < q@.len() ==> dists@[(#[trigger] q@[a]).0 as int] <= dists@[(#[trigger] q@[b]).0 as int],
                q@.no_duplicates(),
                bfs_closed(s, dists@, q@, curr.0 as int),
                levels_found(s, start, dists@, level),
                j <= ns@.len(),
                forall|k: int| 0 <= k < ns@.len() ==> (#[trigger] ns@[k]).valid(),
                forall|x: GridPosition| ns@.contains(x) <==> curr.adjacent(x),
                forall|k: int| 0 <= k < j && s[ns@[k].0 as int] ==> dists@[(#[trigger] ns@[k]).0 as int] != u16::MAX,
                count_found(dists@) >= count_found(dbefore),
                count_found(dists@) == count_found(dbefore) ==> q@.len() == before.len() - 1,
                count_found(dists@) <= CELL_COUNT,
            decreases ns@.len() - j,
        {
            let n = ns[j];
            proof {
                assert(ns@.contains(n));
                assert(GridPosition(n.0 as usize) == n);
                assert(s[n.0 as int] == (!occupied(grid@, n) && !visited@[n.0 as int]));
            }
            if n.is_empty(grid) && !visited[n.i()] && dists[n.i()] == u16::MAX {
                let ghost db = dists@;
                let ghost qb = q@;
                proof {
                    assert(step_ok(s, curr, n));
                    lemma_new_distance(s, start, dists@, q@, curr, n, level);
                }
                dists.set(n.i(), d);
                q.push_back(n);
                proof {
                    lemma_bfs_found(s, start, db, dists@, qb, q@, curr, n, level);
                }
            }
            j = j + 1;
        }
        proof {
            lemma_bfs_expanded(s, start, dists@, q@, curr, ns@, level);
        }
    }
}


/// Breadth-first search from `start` through the cells allowed by `allowed`:
/// afterwards each cell of the region of `start` holds the number of steps of
/// a shortest walk to it, and every other cell keeps `u16::MAX`.
pub fn masked_bfs(allowed: &Vec<bool>, start: GridPosition, dists: &mut Vec<u16>)
    requires
        allowed@.len() == CELL_COUNT,
        start.valid(),
        old(dists)@.len() == CELL_COUNT,
        forall|i: int| 0 <= i < CELL_COUNT ==> old(dists)@[i] == u16::MAX,
    ensures
        final(dists)@.len() == CELL_COUNT,
        forall|i: int|
            0 <= i < CELL_COUNT ==> (#[trigger] final(dists)@[i] != u16::MAX) == in_region(
                allowed@,
                start,
                i,
            ),
        forall|i: int|
            0 <= i < CELL_COUNT && #[trigger] final(dists)@[i] != u16::MAX ==> distance_is(
                allowed@,
                start,
                GridPosition(i as usize),
                final(dists)@[i] as nat,
            ),
        forall|i: int|
            0 <= i < CELL_COUNT ==> final(dists)@[i] as int == #[trigger] shortest(allowed@, start, i),
{
    let ghost s = allowed@;
    let mut q: VecDeque<GridPosition> = VecDeque::with_capacity(150);
    let ghost d0 = dists@;
    dists.set(start.i(), 0);
    q.push_back(start);
    proof {
        lemma_bfs_start(s, start, d0, dists@, q@);
    }
    loop
        invariant
            allowed@.len() == CELL_COUNT,
            start.valid(),
            s == allowed@,
            dists@.len() == CELL_COUNT,
            dists_ok(s, start, dists@),
            queue_ok(dists@, q@),
            bfs_closed(s, dists@, q@, -1),
            q@.len() > 0 ==> levels_found(s, start, dists@, dists@[q@[0].0 as int] as nat),
        decreases CELL_COUNT - count_found(dists@), q@.len(),
    {
        let ghost before = q@;
        let ghost dbefore = dists@;
        let curr = match q.pop_front() {
            Some(c) => c,
            None => {
                proof {
                    lemma_bfs_done(s, start, dists@, q@);
                }
                return;
            },
        };
        proof {
            lemma_bfs_pop(s, start, dists@, before, q@, curr);
        }
        let ghost level = dists@[curr.0 as int] as nat;
        let d = dists[curr.i()] + 1;
        let ns = curr.neighbors();
        let mut j: usize = 0;
        while j < ns.len()
            invariant
                allowed@.len() == CELL_COUNT,
                start.valid(),
                s == allowed@,
                curr.valid(),
                dists@.len() == CELL_COUNT,
                dists@[curr.0 as int] == level,
                level < CELL_COUNT,
                d == level + 1,
                dists_ok(s, start, dists@),
                !q@.contains(curr),
                forall|k: int| 0 <= k < q@.len() ==> (#[trigger] q@[k]).valid() && level <= dists@[q@[k].0 as int] <= level + 1,
                forall|a: int, b: int| 0 <= a <= b < q@.len() ==> dists@[(#[trigger] q@[a]).0 as int] <= dists@[(#[trigger] q@[b]).0 as int],
                q@.no_duplicates(),
                bfs_closed(s, dists@, q@, curr.0 as int),
                levels_found(s, start, dists@, level),
                j <= ns@.len(),
                forall|k: int| 0 <= k < ns@.len() ==> (#[trigger] ns@[k]).valid(),
                forall|x: GridPosition| ns@.contains(x) <==> curr.adjacent(x),
                forall|k: int| 0 <= k < j && s[ns@[k].0 as int] ==> dists@[(#[trigger] ns@[k]).0 as int] != u16::MAX,
                count_found(dists@) >= count_found(dbefore),
                count_found(dists@) == count_found(dbefore) ==> q@.len() == before.len() - 1,
                count_found(dists@) <= CELL_COUNT,
            decreases ns@.len() - j,
        {
            let n = ns[j];
            proof {
                assert(ns@.contains(n));
                assert(GridPosition(n.0 as usize) == n);
            }
            if allowed[n.i()] && dists[n.i()] == u16::MAX {
                let ghost db = dists@;
                let ghost qb = q@;
                proof {
                    assert(step_ok(s, curr, n));
                    lemma_new_distance(s, start, dists@, q@, curr, n, level);
                }
                dists.set(n.i(), d);
                q.push_back(n);
                proof {
                    lemma_bfs_found(s, start, db, dists@, qb, q@, curr, n, level);
                }
            }
            j = j + 1;
        }
        proof {
            lemma_bfs_expanded(s, start, dists@, q@, curr, ns@, level);
        }
    }
}


/// The found table after one more cell is given a distance.
pub proof fn lemma_found_update(d: Seq<u16>, n: int, v: u16)
    requires
        0 <= n < d.len(),
        d[n] == u16::MAX,
        v != u16::MAX,
    ensures
        found(d.update(n, v)) == found(d).update(n, true),
        count_found(d.update(n, v)) == count_found(d) + 1,
{
    assert(found(d.update(n, v)) =~= found(d).update(n, true));
    lemma_count_true_update(found(d), n, true);
}

/// The search invariants hold once `start` alone is found and queued.
pub proof fn lemma_bfs_start(s: Seq<bool>, start: GridPosition, d0: Seq<u16>, d: Seq<u16>, q: Seq<GridPosition>)
    requires
        start.valid(),
        d0.len() == CELL_COUNT,
        forall|i: int| 0 <= i < CELL_COUNT ==> d0[i] == u16::MAX,
        d == d0.update(start.0 as int, 0),
        q == seq![start],
    ensures
        dists_ok(s, start, d),
        queue_ok(d, q),
        bfs_closed(s, d, q, -1),
        levels_found(s, start, d, 0),
{
    reveal(dists_ok);
    reveal(queue_ok);
    reveal(bfs_closed);
    reveal(levels_found);
    lemma_count_true_none(found(d0));
    lemma_found_update(d0, start.0 as int, 0);
    lemma_path_start(s, start);
    assert(GridPosition(start.0 as usize) == start);
    assert forall|i: int| #![trigger d[i]] 0 <= i < CELL_COUNT && d[i] != u16::MAX implies in_region(s, start, i)
        && distance_is(s, start, GridPosition(i as usize), d[i] as nat) && d[i] < count_found(d) by {
        assert(i == start.0);
    }
    assert(q.contains(start)) by {
        assert(q[0] == start);
    }
}

/// With the queue empty, the found cells are exactly the region of `start`,
/// each with its shortest distance.
pub proof fn lemma_bfs_done(s: Seq<bool>, start: GridPosition, d: Seq<u16>, q: Seq<GridPosition>)
    requires
        start.valid(),
        dists_ok(s, start, d),
        bfs_closed(s, d, q, -1),
        q.len() == 0,
    ensures
        forall|i: int| 0 <= i < CELL_COUNT ==> (#[trigger] d[i] != u16::MAX) == in_region(s, start, i),
        forall|i: int|
            0 <= i < CELL_COUNT && #[trigger] d[i] != u16::MAX ==> distance_is(s, start, GridPosition(i as usize), d[i] as nat),
        forall|i: int| 0 <= i < CELL_COUNT ==> d[i] as int == #[trigger] shortest(s, start, i),
{
    reveal(dists_ok);
    reveal(bfs_closed);
    assert forall|i: int| 0 <= i < CELL_COUNT && in_region(s, start, i) implies #[trigger] d[i] != u16::MAX by {
        if i != start.0 {
            let goal = GridPosition(i as usize);
            let p = choose|p: Seq<GridPosition>| #[trigger] is_path(s, p, start, goal);
            let marked = found(d);
            assert forall|a: int, m: GridPosition|
                #![trigger marked[a], GridPosition(a as usize).adjacent(m)]
                0 <= a < CELL_COUNT && marked[a] && GridPosition(a as usize).adjacent(m) && m.valid()
                    && s[m.0 as int] implies marked[m.0 as int] by {
                assert(!q.contains(GridPosition(a as usize)));
                assert(d[a] != u16::MAX);
            }
            lemma_marked_closed(s, marked, p, start, goal, p.len() - 1);
        }
    }
    assert forall|i: int| 0 <= i < CELL_COUNT implies d[i] as int == #[trigger] shortest(s, start, i) by {
        if d[i] != u16::MAX {
            let g = GridPosition(i as usize);
            assert(distance_is(s, start, g, d[i] as nat));
            let c = choose|c: nat| #[trigger] distance_is(s, start, g, c);
            lemma_distance_unique(s, start, g, c, d[i] as nat);
        }
    }
}

/// Taking the front cell off the queue keeps the invariants, with that cell
/// left to expand.
pub proof fn lemma_bfs_pop(
    s: Seq<bool>,
    start: GridPosition,
    d: Seq<u16>,
    before: Seq<GridPosition>,
    q: Seq<GridPosition>,
    curr: GridPosition,
)
    requires
        dists_ok(s, start, d),
        queue_ok(d, before),
        bfs_closed(s, d, before, -1),
        before.len() > 0,
        curr == before[0],
        q == before.subrange(1, before.len() as int),
    ensures
        curr.valid(),
        d[curr.0 as int] != u16::MAX,
        d[curr.0 as int] < count_found(d),
        count_found(d) <= CELL_COUNT,
        !q.contains(curr),
        forall|k: int| 0 <= k < q.len() ==> (#[trigger] q[k]).valid() && d[curr.0 as int] <= d[q[k].0 as int] <= d[curr.0 as int] + 1,
        forall|a: int, b: int| 0 <= a <= b < q.len() ==> d[(#[trigger] q[a]).0 as int] <= d[(#[trigger] q[b]).0 as int],
        q.no_duplicates(),
        bfs_closed(s, d, q, curr.0 as int),
{
    reveal(dists_ok);
    reveal(queue_ok);
    reveal(bfs_closed);
    lemma_count_true_bound(found(d));
    assert(GridPosition(curr.0 as usize) == curr);
    assert(d[curr.0 as int] != u16::MAX);
    assert forall|k: int| 0 <= k < q.len() implies (#[trigger] q[k]).valid() && d[curr.0 as int] <= d[q[k].0 as int]
        <= d[curr.0 as int] + 1 by {
        assert(q[k] == before[k + 1]);
        assert(d[before[0].0 as int] <= d[before[k + 1].0 as int]);
        assert(d[before[k + 1].0 as int] <= d[before[before.len() - 1].0 as int]);
    }
    assert forall|a: int, b: int| 0 <= a <= b < q.len() implies d[(#[trigger] q[a]).0 as int] <= d[(
    #[trigger] q[b]).0 as int] by {
        assert(q[a] == before[a + 1]);
        assert(q[b] == before[b + 1]);
        assert(d[before[a + 1].0 as int] <= d[before[b + 1].0 as int]);
    }
    assert(!q.contains(curr)) by {
        if q.contains(curr) {
            let k = choose|k: int| 0 <= k < q.len() && q[k] == curr;
            assert(before[k + 1] == before[0]);
        }
    }
    assert forall|i: int, m: GridPosition|
        #![trigger d[i], GridPosition(i as usize).adjacent(m)]
        0 <= i < CELL_COUNT && i != curr.0 && d[i] != u16::MAX && !q.contains(GridPosition(i as usize))
            && GridPosition(i as usize).adjacent(m) && m.valid() && s[m.0 as int] implies d[m.0 as int] != u16::MAX by {
        if before.contains(GridPosition(i as usize)) {
            let k = choose|k: int| 0 <= k < before.len() && before[k] == GridPosition(i as usize);
            if k == 0 {
                assert(GridPosition(i as usize).0 == curr.0);
            } else {
                assert(q[k - 1] == before[k]);
            }
        }
    }
}

/// Giving a newly found neighbour the next distance and queueing it keeps
/// the invariants of the expansion.
pub proof fn lemma_bfs_found(
    s: Seq<bool>,
    start: GridPosition,
    db: Seq<u16>,
    d: Seq<u16>,
    qb: Seq<GridPosition>,
    q: Seq<GridPosition>,
    curr: GridPosition,
    n: GridPosition,
    level: nat,
)
    requires
        start.valid(),
        curr.valid(),
        n.valid(),
        dists_ok(s, start, db),
        db[curr.0 as int] == level,
        db[n.0 as int] == u16::MAX,
        level + 1 < u16::MAX,
        distance_is(s, start, n, level + 1),
        in_region(s, start, n.0 as int),
        d == db.update(n.0 as int, (level + 1) as u16),
        q == qb.push(n),
        !qb.contains(curr),
        forall|k: int| 0 <= k < qb.len() ==> (#[trigger] qb[k]).valid() && level <= db[qb[k].0 as int] <= level + 1,
        forall|a: int, b: int| 0 <= a <= b < qb.len() ==> db[(#[trigger] qb[a]).0 as int] <= db[(#[trigger] qb[b]).0 as int],
        qb.no_duplicates(),
        bfs_closed(s, db, qb, curr.0 as int),
        levels_found(s, start, db, level),
    ensures
        d.len() == CELL_COUNT,
        dists_ok(s, start, d),
        d[curr.0 as int] == level,
        level < CELL_COUNT,
        !q.contains(curr),
        forall|k: int| 0 <= k < q.len() ==> (#[trigger] q[k]).valid() && level <= d[q[k].0 as int] <= level + 1,
        forall|a: int, b: int| 0 <= a <= b < q.len() ==> d[(#[trigger] q[a]).0 as int] <= d[(#[trigger] q[b]).0 as int],
        q.no_duplicates(),
        bfs_closed(s, d, q, curr.0 as int),
        levels_found(s, start, d, level),
        count_found(d) == count_found(db) + 1,
        count_found(d) <= CELL_COUNT,
        forall|i: int| 0 <= i < CELL_COUNT && #[trigger] db[i] != u16::MAX ==> d[i] != u16::MAX,
{
    reveal(dists_ok);
    reveal(bfs_closed);
    reveal(levels_found);
    let v = (level + 1) as u16;
    lemma_found_update(db, n.0 as int, v);
    lemma_count_true_bound(found(d));
    assert(GridPosition(curr.0 as usize) == curr);
    assert(GridPosition(n.0 as usize) == n);
    assert(db[curr.0 as int] < count_found(db));
    assert(curr.0 != n.0);
    assert forall|i: int| #![trigger d[i]] 0 <= i < CELL_COUNT && d[i] != u16::MAX implies in_region(s, start, i)
        && distance_is(s, start, GridPosition(i as usize), d[i] as nat) && d[i] < count_found(d) by {
        if i != n.0 {
            assert(db[i] == d[i]);
        }
    }
    assert forall|k: int| 0 <= k < q.len() implies (#[trigger] q[k]).valid() && level <= d[q[k].0 as int] <= level + 1 by {
        if k < qb.len() {
            assert(q[k] == qb[k]);
            assert(db[qb[k].0 as int] != u16::MAX);
            assert(qb[k].0 != n.0);
        }
    }
    assert forall|a: int, b: int| 0 <= a <= b < q.len() implies d[(#[trigger] q[a]).0 as int] <= d[(
    #[trigger] q[b]).0 as int] by {
        if b < qb.len() {
            assert(q[a] == qb[a]);
            assert(q[b] == qb[b]);
            assert(qb[a].0 != n.0);
            assert(qb[b].0 != n.0);
        } else {
            assert(q[a].valid() && level <= d[q[a].0 as int] <= level + 1);
        }
    }
    assert(!qb.contains(n)) by {
        if qb.contains(n) {
            let k = choose|k: int| 0 <= k < qb.len() && qb[k] == n;
        }
    }
    assert(!q.contains(curr)) by {
        if q.contains(curr) {
            let k = choose|k: int| 0 <= k < q.len() && q[k] == curr;
            if k < qb.len() {
                assert(qb[k] == curr);
            }
        }
    }
    assert(q.no_duplicates()) by {
        assert forall|a: int, b: int| 0 <= a < q.len() && 0 <= b < q.len() && a != b implies q[a] != q[b] by {
            if a < qb.len() && b < qb.len() {
                assert(q[a] == qb[a] && q[b] == qb[b]);
            } else if a < qb.len() {
                assert(qb.contains(q[a]));
            } else if b < qb.len() {
                assert(qb.contains(q[b]));
            }
        }
    }
    assert forall|i: int, m: GridPosition|
        #![trigger d[i], GridPosition(i as usize).adjacent(m)]
        0 <= i < CELL_COUNT && i != curr.0 && d[i] != u16::MAX && !q.contains(GridPosition(i as usize))
            && GridPosition(i as usize).adjacent(m) && m.valid() && s[m.0 as int] implies d[m.0 as int] != u16::MAX by {
        if i == n.0 {
            assert(q[q.len() - 1] == n);
        } else {
            assert(db[i] != u16::MAX);
            if qb.contains(GridPosition(i as usize)) {
                let k = choose|k: int| 0 <= k < qb.len() && qb[k] == GridPosition(i as usize);
                assert(q[k] == qb[k]);
            }
            assert(db[m.0 as int] != u16::MAX);
        }
    }
    assert forall|w: GridPosition, e: nat|
        #![trigger walk_len(s, start, w, e)]
        walk_len(s, start, w, e) && e < level implies w.valid() && d[w.0 as int] != u16::MAX by {
        assert(db[w.0 as int] != u16::MAX);
    }
}

/// Once every allowed neighbour of the expanded cell is found, the
/// invariants of the search hold again.
pub proof fn lemma_bfs_expanded(
    s: Seq<bool>,
    start: GridPosition,
    d: Seq<u16>,
    q: Seq<GridPosition>,
    curr: GridPosition,
    ns: Seq<GridPosition>,
    level: nat,
)
    requires
        start.valid(),
        curr.valid(),
        d.len() == CELL_COUNT,
        dists_ok(s, start, d),
        d[curr.0 as int] == level,
        level < CELL_COUNT,
        !q.contains(curr),
        forall|k: int| 0 <= k < q.len() ==> (#[trigger] q[k]).valid() && level <= d[q[k].0 as int] <= level + 1,
        forall|a: int, b: int| 0 <= a <= b < q.len() ==> d[(#[trigger] q[a]).0 as int] <= d[(#[trigger] q[b]).0 as int],
        q.no_duplicates(),
        bfs_closed(s, d, q, curr.0 as int),
        levels_found(s, start, d, level),
        forall|x: GridPosition| ns.contains(x) <==> curr.adjacent(x),
        forall|k: int| 0 <= k < ns.len() && s[ns[k].0 as int] ==> d[(#[trigger] ns[k]).0 as int] != u16::MAX,
    ensures
        queue_ok(d, q),
        bfs_closed(s, d, q, -1),
        q.len() > 0 ==> levels_found(s, start, d, d[q[0].0 as int] as nat),
{
    reveal(dists_ok);
    reveal(queue_ok);
    reveal(bfs_closed);
    reveal(levels_found);
    assert(GridPosition(curr.0 as usize) == curr);
    assert forall|k: int| 0 <= k < q.len() implies (#[trigger] q[k]).valid() && d[q[k].0 as int] != u16::MAX by {
        assert(level < count_found(d));
        lemma_count_true_bound(found(d));
    }
    assert forall|i: int, m: GridPosition|
        #![trigger d[i], GridPosition(i as usize).adjacent(m)]
        0 <= i < CELL_COUNT && i != -1 && d[i] != u16::MAX && !q.contains(GridPosition(i as usize))
            && GridPosition(i as usize).adjacent(m) && m.valid() && s[m.0 as int] implies d[m.0 as int] != u16::MAX by {
        if i == curr.0 {
            assert(ns.contains(m));
            let k = choose|k: int| 0 <= k < ns.len() && ns[k] == m;
        }
    }
    if q.len() > 0 && d[q[0].0 as int] == level + 1 {
        assert forall|w: GridPosition, e: nat|
            #![trigger walk_len(s, start, w, e)]
            walk_len(s, start, w, e) && e < level + 1 implies w.valid() && d[w.0 as int] != u16::MAX by {
            if e == level {
                if e == 0 {
                    let p = choose|p: Seq<GridPosition>| #[trigger] is_path(s, p, start, w) && p.len() == e + 1;
                    assert(w == start);
                } else {
                    let u = lemma_walk_pred(s, start, w, (e - 1) as nat);
                    lemma_walk_end_valid(s, start, u, (e - 1) as nat);
                    assert(d[u.0 as int] != u16::MAX);
                    assert(GridPosition(u.0 as usize) == u);
                    assert(distance_is(s, start, u, d[u.0 as int] as nat));
                    assert(d[u.0 as int] <= e - 1);
                    if q.contains(u) {
                        let k = choose|k: int| 0 <= k < q.len() && q[k] == u;
                        assert(d[q[0].0 as int] <= d[q[k].0 as int]);
                    }
                    assert(GridPosition(u.0 as usize).adjacent(w));
                    lemma_walk_end_valid(s, start, w, e);
                }
            }
        }
    }
}

/// The highest evaluation: a won line of play.
pub const MAX_EVAL: i32 = 1_000_000;
/// The lowest evaluation: a lost line of play.
pub const MIN_EVAL: i32 = -1_000_000;
/// The evaluation of a line of play where both heads meet.
pub const DRAW_EVAL: i32 = 0;

/// The shortest distances from `start` to every cell, `u16::MAX` where no
/// walk leads.
pub open spec fn distance_table(allowed: Seq<bool>, start: GridPosition) -> Seq<int> {
    Seq::new(CELL_COUNT as nat, |i: int| shortest(allowed, start, i))
}

/// The number of cells that `a` reaches, and reaches sooner than `b`.
pub open spec fn closer_count(a: Seq<int>, b: Seq<int>) -> nat
    decreases a.len(),
{
    if a.len() == 0 {
        0
    } else {
        closer_count(a.drop_last(), b.drop_last()) + if a.last() < b[a.len() - 1] && a.last() != u16::MAX {
            1nat
        } else {
            0nat
        }
    }
}

/// Moving from `pos` in direction `d` lands on an empty cell that the line
/// of play has not used.
pub open spec fn free_step(s: Seq<GridCell>, visited: Seq<bool>, pos: GridPosition, d: Direction) -> bool {
    match pos.moved(d) {
        Some(p) => !occupied(s, p) && !visited[p.0 as int],
        None => false,
    }
}

/// How many of the first `k` directions are free steps from `pos`.
pub open spec fn free_count(s: Seq<GridCell>, visited: Seq<bool>, pos: GridPosition, k: nat) -> int
    decreases k,
{
    if k == 0 {
        0
    } else {
        free_count(s, visited, pos, (k - 1) as nat) + if free_step(s, visited, pos, counterclockwise()[k - 1]) {
            1int
        } else {
            0int
        }
    }
}

/// The middle cell of the field.
pub open spec fn center() -> GridPosition {
    GridPosition(220)
}

/// The evaluation of a position: a hundred per cell that `my` reaches before
/// `opp` minus a hundred per cell that `opp` reaches first, two off per step
/// from the middle, five more per free step.
pub open spec fn voronoi_score(s: Seq<GridCell>, visited: Seq<bool>, my: GridPosition, opp: GridPosition) -> int {
    let allowed = open_mask(s, visited);
    let m = distance_table(allowed, my);
    let o = distance_table(allowed, opp);
    (closer_count(m, o) - closer_count(o, m)) * 100 - my.distance(center()) * 2 + free_count(s, visited, my, 4) * 5
}

proof fn lemma_closer_count_bound(a: Seq<int>, b: Seq<int>)
    ensures
        closer_count(a, b) <= a.len(),
    decreases a.len(),
{
    if a.len() > 0 {
        lemma_closer_count_bound(a.drop_last(), b.drop_last());
    }
}

/// A table of `CELL_COUNT` entries that are all `u16::MAX`.
fn unreached_table() -> (r: Vec<u16>)
    ensures
        r@.len() == CELL_COUNT,
        forall|i: int| 0 <= i < CELL_COUNT ==> r@[i] == u16::MAX,
{
    let mut r: Vec<u16> = Vec::new();
    let mut k: usize = 0;
    while k < CELL_COUNT
        invariant
            k <= CELL_COUNT,
            r@.len() == k,
            forall|i: int| 0 <= i < k ==> r@[i] == u16::MAX,
        decreases CELL_COUNT - k,
    {
        r.push(u16::MAX);
        k = k + 1;
    }
    r
}

/// The number of directions in which `pos` has a free step.
pub fn free_steps(grid: &Grid, visited: &Vec<bool>, pos: GridPosition) -> (r: i32)
    requires
        grid@.len() == CELL_COUNT,
        visited@.len() == CELL_COUNT,
        pos.valid(),
    ensures
        r == free_count(grid@, visited@, pos, 4),
        0 <= r <= 4,
{
    let dirs = Direction::all();
    let mut count: i32 = 0;
    let mut k: usize = 0;
    while k < 4
        invariant
            grid@.len() == CELL_COUNT,
            visited@.len() == CELL_COUNT,
            pos.valid(),
            dirs@ == counterclockwise(),
            k <= 4,
            count == free_count(grid@, visited@, pos, k as nat),
            0 <= count <= k,
        decreases 4 - k,
    {
        match pos.after_moved(dirs[k]) {
            Some(p) => {
                if p.is_empty(grid) && !visited[p.i()] {
                    count = count + 1;
                }
            },
            None => {},
        }
        k = k + 1;
    }
    count
}

/// The evaluation of a position, `voronoi_score`.
pub fn evaluate_voronoi(grid: &Grid, visited: &Vec<bool>, my_pos: GridPosition, opp_pos: GridPosition) -> (r: i32)
    requires
        grid@.len() == CELL_COUNT,
        visited@.len() == CELL_COUNT,
        my_pos.valid(),
        opp_pos.valid(),
    ensures
        r == voronoi_score(grid@, visited@, my_pos, opp_pos),
{
    let ghost allowed = open_mask(grid@, visited@);
    let ghost m = distance_table(allowed, my_pos);
    let ghost o = distance_table(allowed, opp_pos);
    let mut dist_m = unreached_table();
    let mut dist_o = unreached_table();
    fast_bfs(grid, visited, my_pos, &mut dist_m);
    fast_bfs(grid, visited, opp_pos, &mut dist_o);
    assert(dist_m@.len() == CELL_COUNT);
    let mut my_territory: i32 = 0;
    let mut opp_territory: i32 = 0;
    let mut i: usize = 0;
    while i < CELL_COUNT
        invariant
            i <= CELL_COUNT,
            dist_m@.len() == CELL_COUNT,
            dist_o@.len() == CELL_COUNT,
            m.len() == CELL_COUNT,
            o.len() == CELL_COUNT,
            forall|k: int| 0 <= k < CELL_COUNT ==> dist_m@[k] as int == #[trigger] m[k],
            forall|k: int| 0 <= k < CELL_COUNT ==> dist_o@[k] as int == #[trigger] o[k],
            my_territory == closer_count(m.take(i as int), o.take(i as int)),
            opp_territory == closer_count(o.take(i as int), m.take(i as int)),
            my_territory <= i,
            opp_territory <= i,
        decreases CELL_COUNT - i,
    {
        proof {
            assert(m.take(i + 1).drop_last() =~= m.take(i as int));
            assert(o.take(i + 1).drop_last() =~= o.take(i as int));
            assert(m[i as int] == dist_m@[i as int] as int);
            assert(o[i as int] == dist_o@[i as int] as int);
        }
        if dist_m[i] < dist_o[i] && dist_m[i] != u16::MAX {
            my_territory = my_territory + 1;
        } else if dist_o[i] < dist_m[i] && dist_o[i] != u16::MAX {
            opp_territory = opp_territory + 1;
        }
        i = i + 1;
    }
    proof {
        assert(m.take(CELL_COUNT as int) =~= m);
        assert(o.take(CELL_COUNT as int) =~= o);
    }
    let mut score = (my_territory - opp_territory) * 100;
    let center = GridPosition::new(GRID_SIZE / 2, GRID_SIZE / 2).unwrap();
    proof {
        assert(center == GridPosition(220));
    }
    let dist_to_center = my_pos.manhattan_distance(&center) as i32;
    score = score - dist_to_center * 2;
    let mobility = free_steps(grid, visited, my_pos);
    score = score + mobility * 5;
    score
}

/// How long a line of play from `pos` lasts, searched `max_depth - depth`
/// moves deep: a thousand per move made, plus the size of the region left at
/// the end of the deepest lines.
pub open spec fn survival_value(s: Seq<GridCell>, visited: Seq<bool>, pos: GridPosition, depth: nat, max_depth: nat) -> int
    decreases max_depth - depth, 5int,
{
    if depth >= max_depth {
        (depth * 1000 + region_size(open_mask(s, visited), pos)) as int
    } else {
        let best = survival_best(s, visited, pos, depth, max_depth, 0, -1);
        if best == -1 {
            (depth * 1000) as int
        } else {
            best
        }
    }
}

/// The best of `best` and the values of the free steps from `pos` among the
/// directions from the `k`-th on.
pub open spec fn survival_best(
    s: Seq<GridCell>,
    visited: Seq<bool>,
    pos: GridPosition,
    depth: nat,
    max_depth: nat,
    k: nat,
    best: int,
) -> int
    decreases max_depth - depth, 4 - k,
{
    if k >= 4 || depth >= max_depth {
        best
    } else {
        let next = match pos.moved(counterclockwise()[k as int]) {
            Some(n) => if !occupied(s, n) && !visited[n.0 as int] {
                let v = survival_value(s, visited.update(n.0 as int, true), n, depth + 1, max_depth);
                if v > best {
                    v
                } else {
                    best
                }
            } else {
                best
            },
            None => best,
        };
        survival_best(s, visited, pos, depth, max_depth, k + 1, next)
    }
}

/// Searches the lines of play of a player alone in its region, `max_depth`
/// moves deep, and returns `survival_value`.
pub fn survival_search(grid: &Grid, pos: GridPosition, visited: &mut Vec<bool>, depth: u16, max_depth: u16) -> (r: i32)
    requires
        grid@.len() == CELL_COUNT,
        old(visited)@.len() == CELL_COUNT,
        pos.valid(),
        depth <= max_depth,
    ensures
        r == survival_value(grid@, old(visited)@, pos, depth as nat, max_depth as nat),
        final(visited)@ == old(visited)@,
    decreases max_depth - depth,
{
    if depth == max_depth {
        let n = flood_fill_count(grid, visited, pos);
        return depth as i32 * 1000 + n as i32;
    }
    let ghost v0 = visited@;
    let dirs = Direction::all();
    let mut best_val: i32 = -1;
    let mut k: usize = 0;
    while k < 4
        invariant
            grid@.len() == CELL_COUNT,
            pos.valid(),
            depth < max_depth,
            visited@ == v0,
            v0.len() == CELL_COUNT,
            dirs@ == counterclockwise(),
            k <= 4,
            survival_best(grid@, v0, pos, depth as nat, max_depth as nat, k as nat, best_val as int) == survival_best(
                grid@,
                v0,
                pos,
                depth as nat,
                max_depth as nat,
                0,
                -1,
            ),
        decreases 4 - k,
    {
        match pos.after_moved(dirs[k]) {
            Some(next_pos) => {
                if next_pos.is_empty(grid) && !visited[next_pos.i()] {
                    visited.set(next_pos.i(), true);
                    let val = survival_search(grid, next_pos, visited, depth + 1, max_depth);
                    visited.set(next_pos.i(), false);
                    proof {
                        assert(visited@ =~= v0);
                    }
                    if val > best_val {
                        best_val = val;
                    }
                }
            },
            None => {},
        }
        k = k + 1;
    }
    if best_val == -1 {
        return depth as i32 * 1000;
    }
    best_val
}

/// The value of a position found by a depth-limited alpha-beta search with
/// window `alpha`..`beta`, `my` to move when `maxing`: a draw where the heads
/// meet, `voronoi_score` at depth zero.
pub open spec fn ab_value(
    s: Seq<GridCell>,
    visited: Seq<bool>,
    my: GridPosition,
    opp: GridPosition,
    depth: nat,
    alpha: int,
    beta: int,
    maxing: bool,
) -> int
    decreases depth, 5int,
{
    if my == opp {
        DRAW_EVAL as int
    } else if depth == 0 {
        voronoi_score(s, visited, my, opp)
    } else if maxing {
        ab_max(s, visited, my, opp, depth, alpha, beta, 0, MIN_EVAL as int, false)
    } else {
        ab_min(s, visited, my, opp, depth, alpha, beta, 0, MAX_EVAL as int, false)
    }
}

/// The maximizing scan over the moves of `my` from the `k`-th direction on,
/// with the best value so far `best`, stopping once `beta <= alpha`.
pub open spec fn ab_max(
    s: Seq<GridCell>,
    visited: Seq<bool>,
    my: GridPosition,
    opp: GridPosition,
    depth: nat,
    alpha: int,
    beta: int,
    k: nat,
    best: int,
    moved: bool,
) -> int
    decreases depth, 4 - k,
{
    if k >= 4 || depth == 0 {
        if moved {
            best
        } else {
            MIN_EVAL + (20 - depth)
        }
    } else {
        match my.moved(counterclockwise()[k as int]) {
            Some(n) => if !occupied(s, n) && !visited[n.0 as int] {
                let e = ab_value(s, visited.update(n.0 as int, true), n, opp, (depth - 1) as nat, alpha, beta, false);
                let b2 = if e > best {
                    e
                } else {
                    best
                };
                let a2 = if e > alpha {
                    e
                } else {
                    alpha
                };
                if beta <= a2 {
                    b2
                } else {
                    ab_max(s, visited, my, opp, depth, a2, beta, k + 1, b2, true)
                }
            } else if n == opp {
                let b2 = if 0 > best {
                    0
                } else {
                    best
                };
                let a2 = if 0 > alpha {
                    0
                } else {
                    alpha
                };
                if beta <= a2 {
                    b2
                } else {
                    ab_max(s, visited, my, opp, depth, a2, beta, k + 1, b2, true)
                }
            } else {
                ab_max(s, visited, my, opp, depth, alpha, beta, k + 1, best, moved)
            },
            None => ab_max(s, visited, my, opp, depth, alpha, beta, k + 1, best, moved),
        }
    }
}

/// The minimizing scan over the moves of `opp` from the `k`-th direction on,
/// with the best value so far `best`, stopping once `beta <= alpha`.
pub open spec fn ab_min(
    s: Seq<GridCell>,
    visited: Seq<bool>,
    my: GridPosition,
    opp: GridPosition,
    depth: nat,
    alpha: int,
    beta: int,
    k: nat,
    best: int,
    moved: bool,
) -> int
    decreases depth, 4 - k,
{
    if k >= 4 || depth == 0 {
        if moved {
            best
        } else {
            MAX_EVAL - (20 - depth)
        }
    } else {
        match opp.moved(counterclockwise()[k as int]) {
            Some(n) => if !occupied(s, n) && !visited[n.0 as int] {
                let e = ab_value(s, visited.update(n.0 as int, true), my, n, (depth - 1) as nat, alpha, beta, true);
                let b2 = if e < best {
                    e
                } else {
                    best
                };
                let c2 = if e < beta {
                    e
                } else {
                    beta
                };
                if c2 <= alpha {
                    b2
                } else {
                    ab_min(s, visited, my, opp, depth, alpha, c2, k + 1, b2, true)
                }
            } else if n == my {
                let b2 = if 0 < best {
                    0
                } else {
                    best
                };
                let c2 = if 0 < beta {
                    0
                } else {
                    beta
                };
                if c2 <= alpha {
                    b2
                } else {
                    ab_min(s, visited, my, opp, depth, alpha, c2, k + 1, b2, true)
                }
            } else {
                ab_min(s, visited, my, opp, depth, alpha, beta, k + 1, best, moved)
            },
            None => ab_min(s, visited, my, opp, depth, alpha, beta, k + 1, best, moved),
        }
    }
}

/// The value of a position by plain minimax search, `depth` moves deep:
/// what `ab_value` computes without cutting any line of play short.
pub open spec fn mm_value(
    s: Seq<GridCell>,
    visited: Seq<bool>,
    my: GridPosition,
    opp: GridPosition,
    depth: nat,
    maxing: bool,
) -> int
    decreases depth, 5int,
{
    if my == opp {
        DRAW_EVAL as int
    } else if depth == 0 {
        voronoi_score(s, visited, my, opp)
    } else if maxing {
        mm_max(s, visited, my, opp, depth, 0, MIN_EVAL as int, false)
    } else {
        mm_min(s, visited, my, opp, depth, 0, MAX_EVAL as int, false)
    }
}

/// The best value for `my` over its moves from the `k`-th direction on.
pub open spec fn mm_max(
    s: Seq<GridCell>,
    visited: Seq<bool>,
    my: GridPosition,
    opp: GridPosition,
    depth: nat,
    k: nat,
    best: int,
    moved: bool,
) -> int
    decreases depth, 4 - k,
{
    if k >= 4 || depth == 0 {
        if moved {
            best
        } else {
            MIN_EVAL + (20 - depth)
        }
    } else {
        match my.moved(counterclockwise()[k as int]) {
            Some(n) => if !occupied(s, n) && !visited[n.0 as int] {
                let e = mm_value(s, visited.update(n.0 as int, true), n, opp, (depth - 1) as nat, false);
                mm_max(s, visited, my, opp, depth, k + 1, if e > best {
                    e
                } else {
                    best
                }, true)
            } else if n == opp {
                mm_max(s, visited, my, opp, depth, k + 1, if 0 > best {
                    0
                } else {
                    best
                }, true)
            } else {
                mm_max(s, visited, my, opp, depth, k + 1, best, moved)
            },
            None => mm_max(s, visited, my, opp, depth, k + 1, best, moved),
        }
    }
}

/// The best value for `opp` (the lowest) over its moves from the `k`-th
/// direction on.
pub open spec fn mm_min(
    s: Seq<GridCell>,
    visited: Seq<bool>,
    my: GridPosition,
    opp: GridPosition,
    depth: nat,
    k: nat,
    best: int,
    moved: bool,
) -> int
    decreases depth, 4 - k,
{
    if k >= 4 || depth == 0 {
        if moved {
            best
        } else {
            MAX_EVAL - (20 - depth)
        }
    } else {
        match opp.moved(counterclockwise()[k as int]) {
            Some(n) => if !occupied(s, n) && !visited[n.0 as int] {
                let e = mm_value(s, visited.update(n.0 as int, true), my, n, (depth - 1) as nat, true);
                mm_min(s, visited, my, opp, depth, k + 1, if e < best {
                    e
                } else {
                    best
                }, true)
            } else if n == my {
                mm_min(s, visited, my, opp, depth, k + 1, if 0 < best {
                    0
                } else {
                    best
                }, true)
            } else {
                mm_min(s, visited, my, opp, depth, k + 1, best, moved)
            },
            None => mm_min(s, visited, my, opp, depth, k + 1, best, moved),
        }
    }
}

/// A scan that has moved keeps at least its best so far.
proof fn lemma_mm_max_keeps_best(
    s: Seq<GridCell>,
    visited: Seq<bool>,
    my: GridPosition,
    opp: GridPosition,
    depth: nat,
    k: nat,
    best: int,
)
    ensures
        mm_max(s, visited, my, opp, depth, k, best, true) >= best,
    decreases 4 - k,
{
    if k < 4 && depth != 0 {
        match my.moved(counterclockwise()[k as int]) {
            Some(n) => if !occupied(s, n) && !visited[n.0 as int] {
                let e = mm_value(s, visited.update(n.0 as int, true), n, opp, (depth - 1) as nat, false);
                lemma_mm_max_keeps_best(s, visited, my, opp, depth, k + 1, if e > best {
                    e
                } else {
                    best
                });
            } else if n == opp {
                lemma_mm_max_keeps_best(s, visited, my, opp, depth, k + 1, if 0 > best {
                    0
                } else {
                    best
                });
            } else {
                lemma_mm_max_keeps_best(s, visited, my, opp, depth, k + 1, best);
            },
            None => lemma_mm_max_keeps_best(s, visited, my, opp, depth, k + 1, best),
        }
    }
}

/// A scan that has moved keeps at most its best so far.
proof fn lemma_mm_min_keeps_best(
    s: Seq<GridCell>,
    visited: Seq<bool>,
    my: GridPosition,
    opp: GridPosition,
    depth: nat,
    k: nat,
    best: int,
)
    ensures
        mm_min(s, visited, my, opp, depth, k, best, true) <= best,
    decreases 4 - k,
{
    if k < 4 && depth != 0 {
        match opp.moved(counterclockwise()[k as int]) {
            Some(n) => if !occupied(s, n) && !visited[n.0 as int] {
                let e = mm_value(s, visited.update(n.0 as int, true), my, n, (depth - 1) as nat, true);
                lemma_mm_min_keeps_best(s, visited, my, opp, depth, k + 1, if e < best {
                    e
                } else {
                    best
                });
            } else if n == my {
                lemma_mm_min_keeps_best(s, visited, my, opp, depth, k + 1, if 0 < best {
                    0
                } else {
                    best
                });
            } else {
                lemma_mm_min_keeps_best(s, visited, my, opp, depth, k + 1, best);
            },
            None => lemma_mm_min_keeps_best(s, visited, my, opp, depth, k + 1, best),
        }
    }
}

/// Alpha-beta search gives the minimax value of a position whenever its
/// result lies strictly inside the window; a result at or below the window
/// bounds the minimax value from above, one at or above it bounds it from
/// below. The window lies within the range of evaluations.
pub proof fn lemma_alpha_beta(
    s: Seq<GridCell>,
    visited: Seq<bool>,
    my: GridPosition,
    opp: GridPosition,
    depth: nat,
    alpha: int,
    beta: int,
    maxing: bool,
)
    requires
        MIN_EVAL <= alpha < beta <= MAX_EVAL,
    ensures
        alpha < ab_value(s, visited, my, opp, depth, alpha, beta, maxing) < beta ==> ab_value(
            s,
            visited,
            my,
            opp,
            depth,
            alpha,
            beta,
            maxing,
        ) == mm_value(s, visited, my, opp, depth, maxing),
        ab_value(s, visited, my, opp, depth, alpha, beta, maxing) <= alpha ==> mm_value(
            s,
            visited,
            my,
            opp,
            depth,
            maxing,
        ) <= ab_value(s, visited, my, opp, depth, alpha, beta, maxing),
        ab_value(s, visited, my, opp, depth, alpha, beta, maxing) >= beta ==> mm_value(
            s,
            visited,
            my,
            opp,
            depth,
            maxing,
        ) >= ab_value(s, visited, my, opp, depth, alpha, beta, maxing),
    decreases depth, 5int,
{
    if my == opp || depth == 0 {
    } else if maxing {
        lemma_ab_max_scan(s, visited, my, opp, depth, alpha, alpha, beta, 0, MIN_EVAL as int, MIN_EVAL as int, false);
    } else {
        lemma_ab_min_scan(s, visited, my, opp, depth, alpha, beta, beta, 0, MAX_EVAL as int, MAX_EVAL as int, false);
    }
}

/// The maximizing scan of alpha-beta search against the one of minimax
/// search, from the `k`-th direction on: `a` is the raised lower end of the
/// window `lo`..`beta`, `b` and `b2` the best values so far of the two.
proof fn lemma_ab_max_scan(
    s: Seq<GridCell>,
    visited: Seq<bool>,
    my: GridPosition,
    opp: GridPosition,
    depth: nat,
    lo: int,
    a: int,
    beta: int,
    k: nat,
    b: int,
    b2: int,
    moved: bool,
)
    requires
        MIN_EVAL <= lo <= a < beta <= MAX_EVAL,
        a == if lo > b {
            lo
        } else {
            b
        },
        b2 <= b,
        b2 == b || b <= lo,
        !moved ==> b == MIN_EVAL && b2 == MIN_EVAL,
    ensures
        lo < ab_max(s, visited, my, opp, depth, a, beta, k, b, moved) < beta ==> ab_max(
            s,
            visited,
            my,
            opp,
            depth,
            a,
            beta,
            k,
            b,
            moved,
        ) == mm_max(s, visited, my, opp, depth, k, b2, moved),
        ab_max(s, visited, my, opp, depth, a, beta, k, b, moved) <= lo ==> mm_max(s, visited, my, opp, depth, k, b2, moved)
            <= ab_max(s, visited, my, opp, depth, a, beta, k, b, moved),
        ab_max(s, visited, my, opp, depth, a, beta, k, b, moved) >= beta ==> mm_max(s, visited, my, opp, depth, k, b2, moved)
            >= ab_max(s, visited, my, opp, depth, a, beta, k, b, moved),
    decreases depth, 4 - k,
{
    if k >= 4 || depth == 0 {
    } else {
        match my.moved(counterclockwise()[k as int]) {
            Some(n) => if !occupied(s, n) && !visited[n.0 as int] {
                let v2 = visited.update(n.0 as int, true);
                let e = ab_value(s, v2, n, opp, (depth - 1) as nat, a, beta, false);
                let m = mm_value(s, v2, n, opp, (depth - 1) as nat, false);
                lemma_alpha_beta(s, v2, n, opp, (depth - 1) as nat, a, beta, false);
                let nb = if e > b {
                    e
                } else {
                    b
                };
                let na = if e > a {
                    e
                } else {
                    a
                };
                let nb2 = if m > b2 {
                    m
                } else {
                    b2
                };
                if beta <= na {
                    lemma_mm_max_keeps_best(s, visited, my, opp, depth, k + 1, nb2);
                } else {
                    lemma_ab_max_scan(s, visited, my, opp, depth, lo, na, beta, k + 1, nb, nb2, true);
                }
            } else if n == opp {
                let nb = if 0 > b {
                    0
                } else {
                    b
                };
                let na = if 0 > a {
                    0
                } else {
                    a
                };
                let nb2 = if 0 > b2 {
                    0
                } else {
                    b2
                };
                if beta <= na {
                    lemma_mm_max_keeps_best(s, visited, my, opp, depth, k + 1, nb2);
                } else {
                    lemma_ab_max_scan(s, visited, my, opp, depth, lo, na, beta, k + 1, nb, nb2, true);
                }
            } else {
                lemma_ab_max_scan(s, visited, my, opp, depth, lo, a, beta, k + 1, b, b2, moved);
            },
            None => lemma_ab_max_scan(s, visited, my, opp, depth, lo, a, beta, k + 1, b, b2, moved),
        }
    }
}

/// The minimizing scan of alpha-beta search against the one of minimax
/// search, from the `k`-th direction on: `c` is the lowered upper end of the
/// window `alpha`..`hi`, `b` and `b2` the best values so far of the two.
proof fn lemma_ab_min_scan(
    s: Seq<GridCell>,
    visited: Seq<bool>,
    my: GridPosition,
    opp: GridPosition,
    depth: nat,
    alpha: int,
    c: int,
    hi: int,
    k: nat,
    b: int,
    b2: int,
    moved: bool,
)
    requires
        MIN_EVAL <= alpha < c <= hi <= MAX_EVAL,
        c == if hi < b {
            hi
        } else {
            b
        },
        b2 >= b,
        b2 == b || b >= hi,
        !moved ==> b == MAX_EVAL && b2 == MAX_EVAL,
    ensures
        alpha < ab_min(s, visited, my, opp, depth, alpha, c, k, b, moved) < hi ==> ab_min(
            s,
            visited,
            my,
            opp,
            depth,
            alpha,
            c,
            k,
            b,
            moved,
        ) == mm_min(s, visited, my, opp, depth, k, b2, moved),
        ab_min(s, visited, my, opp, depth, alpha, c, k, b, moved) <= alpha ==> mm_min(s, visited, my, opp, depth, k, b2, moved)
            <= ab_min(s, visited, my, opp, depth, alpha, c, k, b, moved),
        ab_min(s, visited, my, opp, depth, alpha, c, k, b, moved) >= hi ==> mm_min(s, visited, my, opp, depth, k, b2, moved)
            >= ab_min(s, visited, my, opp, depth, alpha, c, k, b, moved),
    decreases depth, 4 - k,
{
    if k >= 4 || depth == 0 {
    } else {
        match opp.moved(counterclockwise()[k as int]) {
            Some(n) => if !occupied(s, n) && !visited[n.0 as int] {
                let v2 = visited.update(n.0 as int, true);
                let e = ab_value(s, v2, my, n, (depth - 1) as nat, alpha, c, true);
                let m = mm_value(s, v2, my, n, (depth - 1) as nat, true);
                lemma_alpha_beta(s, v2, my, n, (depth - 1) as nat, alpha, c, true);
                let nb = if e < b {
                    e
                } else {
                    b
                };
                let nc = if e < c {
                    e
                } else {
                    c
                };
                let nb2 = if m < b2 {
                    m
                } else {
                    b2
                };
                if nc <= alpha {
                    lemma_mm_min_keeps_best(s, visited, my, opp, depth, k + 1, nb2);
                } else {
                    lemma_ab_min_scan(s, visited, my, opp, depth, alpha, nc, hi, k + 1, nb, nb2, true);
                }
            } else if n == my {
                let nb = if 0 < b {
                    0
                } else {
                    b
                };
                let nc = if 0 < c {
                    0
                } else {
                    c
                };
                let nb2 = if 0 < b2 {
                    0
                } else {
                    b2
                };
                if nc <= alpha {
                    lemma_mm_min_keeps_best(s, visited, my, opp, depth, k + 1, nb2);
                } else {
                    lemma_ab_min_scan(s, visited, my, opp, depth, alpha, nc, hi, k + 1, nb, nb2, true);
                }
            } else {
                lemma_ab_min_scan(s, visited, my, opp, depth, alpha, c, hi, k + 1, b, b2, moved);
            },
            None => lemma_ab_min_scan(s, visited, my, opp, depth, alpha, c, hi, k + 1, b, b2, moved),
        }
    }
}

/// Alpha-beta search over the moves of both players, `depth` moves deep,
/// returning `ab_value`. The cells used along a line of play are marked in
/// `visited` while it is explored, and unmarked afterwards.
pub fn minimax(
    grid: &Grid,
    my_pos: GridPosition,
    opp_pos: GridPosition,
    visited: &mut Vec<bool>,
    depth: u8,
    alpha: i32,
    beta: i32,
    is_maximizing: bool,
) -> (r: i32)
    requires
        grid@.len() == CELL_COUNT,
        old(visited)@.len() == CELL_COUNT,
        my_pos.valid(),
        opp_pos.valid(),
    ensures
        r == ab_value(grid@, old(visited)@, my_pos, opp_pos, depth as nat, alpha as int, beta as int, is_maximizing),
        final(visited)@ == old(visited)@,
    decreases depth,
{
    if my_pos == opp_pos {
        return DRAW_EVAL;
    }
    if depth == 0 {
        return evaluate_voronoi(grid, visited, my_pos, opp_pos);
    }
    let ghost v0 = visited@;
    let ghost s = grid@;
    let dirs = Direction::all();
    let mut a = alpha;
    let mut b = beta;
    if is_maximizing {
        let mut max_eval = MIN_EVAL;
        let mut can_move = false;
        let mut k: usize = 0;
        while k < 4
            invariant
                s == grid@,
                grid@.len() == CELL_COUNT,
                my_pos.valid(),
                opp_pos.valid(),
                my_pos != opp_pos,
                depth > 0,
                visited@ == v0,
                v0 == old(visited)@,
                v0.len() == CELL_COUNT,
                dirs@ == counterclockwise(),
                k <= 4,
                ab_max(s, v0, my_pos, opp_pos, depth as nat, a as int, b as int, k as nat, max_eval as int, can_move)
                    == ab_value(s, v0, my_pos, opp_pos, depth as nat, alpha as int, beta as int, true),
                is_maximizing,
            decreases 4 - k,
        {
            match my_pos.after_moved(dirs[k]) {
                Some(next_pos) => {
                    if next_pos.is_empty(grid) && !visited[next_pos.i()] {
                        can_move = true;
                        visited.set(next_pos.i(), true);
                        let eval = minimax(grid, next_pos, opp_pos, visited, depth - 1, a, b, false);
                        visited.set(next_pos.i(), false);
                        proof {
                            assert(visited@ =~= v0);
                        }
                        if eval > max_eval {
                            max_eval = eval;
                        }
                        if eval > a {
                            a = eval;
                        }
                        if b <= a {
                            return max_eval;
                        }
                    } else if next_pos == opp_pos {
                        can_move = true;
                        if DRAW_EVAL > max_eval {
                            max_eval = DRAW_EVAL;
                        }
                        if DRAW_EVAL > a {
                            a = DRAW_EVAL;
                        }
                        if b <= a {
                            return max_eval;
                        }
                    }
                },
                None => {},
            }
            k = k + 1;
        }
        if !can_move {
            return MIN_EVAL + (20 - depth as i32);
        }
        max_eval
    } else {
        let mut min_eval = MAX_EVAL;
        let mut can_move = false;
        let mut k: usize = 0;
        while k < 4
            invariant
                s == grid@,
                grid@.len() == CELL_COUNT,
                my_pos.valid(),
                opp_pos.valid(),
                my_pos != opp_pos,
                depth > 0,
                visited@ == v0,
                v0 == old(visited)@,
                v0.len() == CELL_COUNT,
                dirs@ == counterclockwise(),
                k <= 4,
                ab_min(s, v0, my_pos, opp_pos, depth as nat, a as int, b as int, k as nat, min_eval as int, can_move)
                    == ab_value(s, v0, my_pos, opp_pos, depth as nat, alpha as int, beta as int, false),
                !is_maximizing,
            decreases 4 - k,
        {
            match opp_pos.after_moved(dirs[k]) {
                Some(next_opp) => {
                    if next_opp.is_empty(grid) && !visited[next_opp.i()] {
                        can_move = true;
                        visited.set(next_opp.i(), true);
                        let eval = minimax(grid, my_pos, next_opp, visited, depth - 1, a, b, true);
                        visited.set(next_opp.i(), false);
                        proof {
                            assert(visited@ =~= v0);
                        }
                        if eval < min_eval {
                            min_eval = eval;
                        }
                        if eval < b {
                            b = eval;
                        }
                        if b <= a {
                            return min_eval;
                        }
                    } else if next_opp == my_pos {
                        can_move = true;
                        if DRAW_EVAL < min_eval {
                            min_eval = DRAW_EVAL;
                        }
                        if DRAW_EVAL < b {
                            b = DRAW_EVAL;
                        }
                        if b <= a {
                            return min_eval;
                        }
                    }
                },
                None => {},
            }
            k = k + 1;
        }
        if !can_move {
            return MAX_EVAL - (20 - depth as i32);
        }
        min_eval
    }
}

/// Moving from `pos` in direction `d` lands on an empty cell.
pub open spec fn open_step(s: Seq<GridCell>, pos: GridPosition, d: Direction) -> bool {
    match pos.moved(d) {
        Some(p) => !occupied(s, p),
        None => false,
    }
}

/// The first direction from the `k`-th on, counterclockwise from
/// `PositiveX`, with an open step from `pos`; `PositiveX` where there is none.
pub open spec fn first_open(s: Seq<GridCell>, pos: GridPosition, k: nat) -> Direction
    decreases 4 - k,
{
    if k >= 4 {
        Direction::PositiveX
    } else if open_step(s, pos, counterclockwise()[k as int]) {
        counterclockwise()[k as int]
    } else {
        first_open(s, pos, k + 1)
    }
}

/// The move a bot falls back on: the first open step, else `PositiveX`.
pub fn default_move(grid: &Grid, pos: GridPosition) -> (r: Direction)
    requires
        grid@.len() == CELL_COUNT,
        pos.valid(),
    ensures
        r == first_open(grid@, pos, 0),
{
    let dirs = Direction::all();
    let mut k: usize = 0;
    while k < 4
        invariant
            grid@.len() == CELL_COUNT,
            pos.valid(),
            dirs@ == counterclockwise(),
            k <= 4,
            first_open(grid@, pos, k as nat) == first_open(grid@, pos, 0),
        decreases 4 - k,
    {
        match pos.after_moved(dirs[k]) {
            Some(p) => {
                if p.is_empty(grid) {
                    return dirs[k];
                }
            },
            None => {},
        }
        k = k + 1;
    }
    Direction::PositiveX
}

/// The direction, among those from the `k`-th on, whose survival search
/// `max_depth` moves deep scores higher than `best_val` and every direction
/// before it; `best` where none does.
pub open spec fn survival_pick(
    s: Seq<GridCell>,
    my: GridPosition,
    max_depth: nat,
    k: nat,
    best_val: int,
    best: Option<Direction>,
) -> Option<Direction>
    decreases 4 - k,
{
    if k >= 4 {
        best
    } else {
        let dir = counterclockwise()[k as int];
        match my.moved(dir) {
            Some(n) => if !occupied(s, n) {
                let v = survival_value(s, none_marked().update(n.0 as int, true), n, 1, max_depth);
                if v > best_val {
                    survival_pick(s, my, max_depth, k + 1, v, Some(dir))
                } else {
                    survival_pick(s, my, max_depth, k + 1, best_val, best)
                }
            } else {
                survival_pick(s, my, max_depth, k + 1, best_val, best)
            },
            None => survival_pick(s, my, max_depth, k + 1, best_val, best),
        }
    }
}

/// One round of the search of a player alone in its region: the first move
/// with the best survival value `max_depth` moves deep.
pub fn survival_round(grid: &Grid, my_pos: GridPosition, visited: &mut Vec<bool>, max_depth: u16) -> (r: Option<
    Direction,
>)
    requires
        grid@.len() == CELL_COUNT,
        old(visited)@ == none_marked(),
        my_pos.valid(),
        max_depth >= 1,
    ensures
        r == survival_pick(grid@, my_pos, max_depth as nat, 0, -1, None),
        final(visited)@ == none_marked(),
{
    let dirs = Direction::all();
    let mut best_val: i32 = -1;
    let mut current_best_move: Option<Direction> = None;
    let mut k: usize = 0;
    while k < 4
        invariant
            grid@.len() == CELL_COUNT,
            visited@ == none_marked(),
            my_pos.valid(),
            max_depth >= 1,
            dirs@ == counterclockwise(),
            k <= 4,
            survival_pick(grid@, my_pos, max_depth as nat, k as nat, best_val as int, current_best_move)
                == survival_pick(grid@, my_pos, max_depth as nat, 0, -1, None),
        decreases 4 - k,
    {
        let dir = dirs[k];
        match my_pos.after_moved(dir) {
            Some(next_pos) => {
                if next_pos.is_empty(grid) {
                    visited.set(next_pos.i(), true);
                    let val = survival_search(grid, next_pos, visited, 1, max_depth);
                    visited.set(next_pos.i(), false);
                    proof {
                        assert(visited@ =~= none_marked());
                    }
                    if val > best_val {
                        best_val = val;
                        current_best_move = Some(dir);
                    }
                }
            },
            None => {},
        }
        k = k + 1;
    }
    current_best_move
}

/// How far the cell one step from `my` in direction `d` lies from the
/// middle of the field; 1000 where that step is not open.
pub open spec fn center_key(s: Seq<GridCell>, my: GridPosition, d: Direction) -> int {
    match my.moved(d) {
        Some(p) => if !occupied(s, p) {
            p.distance(center())
        } else {
            1000
        },
        None => 1000,
    }
}

/// 1 where `b` holds, else 0.
pub open spec fn ind(b: bool) -> int {
    if b {
        1
    } else {
        0
    }
}

/// The `j`-th of four directions comes before the `i`-th when they are
/// ordered by `keys`, ties kept in counterclockwise order.
pub open spec fn comes_before(keys: Seq<int>, j: int, i: int) -> bool {
    keys[j] < keys[i] || (keys[j] == keys[i] && j < i)
}

/// The place of the `i`-th direction when the four are ordered by `keys`.
pub open spec fn order_rank(keys: Seq<int>, i: int) -> int {
    ind(comes_before(keys, 0, i)) + ind(comes_before(keys, 1, i)) + ind(comes_before(keys, 2, i)) + ind(
        comes_before(keys, 3, i),
    )
}

/// The four directions, counterclockwise from `PositiveX`, each put at its
/// place in the order by `keys`: a stable sort.
pub open spec fn ordered_by(keys: Seq<int>) -> Seq<Direction> {
    let c = counterclockwise();
    seq![Direction::PositiveX, Direction::PositiveX, Direction::PositiveX, Direction::PositiveX].update(
        order_rank(keys, 0),
        c[0],
    ).update(order_rank(keys, 1), c[1]).update(order_rank(keys, 2), c[2]).update(order_rank(keys, 3), c[3])
}

/// The places of the four directions are 0 to 3, each taken once.
pub proof fn lemma_order_rank(keys: Seq<int>)
    ensures
        forall|i: int| 0 <= i < 4 ==> 0 <= #[trigger] order_rank(keys, i) < 4,
        forall|i: int, j: int| 0 <= i < 4 && 0 <= j < 4 && i != j ==> order_rank(keys, i) != order_rank(keys, j),
{
}

/// The order by keys is sorted and stable: a direction placed before
/// another has a key no larger, and where the keys are equal it comes first
/// counterclockwise from `PositiveX`.
pub proof fn lemma_order_sorted(keys: Seq<int>, i: int, j: int)
    requires
        0 <= i < 4,
        0 <= j < 4,
        order_rank(keys, i) < order_rank(keys, j),
    ensures
        keys[i] <= keys[j],
        keys[i] == keys[j] ==> i < j,
{
}

/// The four directions, counterclockwise from `PositiveX`, sorted stably by
/// the keys `k0` to `k3`.
pub fn order_by_keys(k0: i32, k1: i32, k2: i32, k3: i32) -> (r: Vec<Direction>)
    ensures
        r@ == ordered_by(seq![k0 as int, k1 as int, k2 as int, k3 as int]),
{
    let ghost keys = seq![k0 as int, k1 as int, k2 as int, k3 as int];
    let dirs = Direction::all();
    let r0: usize = (if k1 < k0 { 1usize } else { 0 }) + (if k2 < k0 { 1usize } else { 0 }) + (if k3 < k0 { 1usize } else { 0 });
    let r1: usize = (if k0 <= k1 { 1usize } else { 0 }) + (if k2 < k1 { 1usize } else { 0 }) + (if k3 < k1 { 1usize } else { 0 });
    let r2: usize = (if k0 <= k2 { 1usize } else { 0 }) + (if k1 <= k2 { 1usize } else { 0 }) + (if k3 < k2 { 1usize } else { 0 });
    let r3: usize = (if k0 <= k3 { 1usize } else { 0 }) + (if k1 <= k3 { 1usize } else { 0 }) + (if k2 <= k3 { 1usize } else { 0 });
    proof {
        lemma_order_rank(keys);
        assert(r0 == order_rank(keys, 0));
        assert(r1 == order_rank(keys, 1));
        assert(r2 == order_rank(keys, 2));
        assert(r3 == order_rank(keys, 3));
    }
    let mut moves: Vec<Direction> = vec![Direction::PositiveX, Direction::PositiveX, Direction::PositiveX, Direction::PositiveX];
    moves.set(r0, dirs[0]);
    moves.set(r1, dirs[1]);
    moves.set(r2, dirs[2]);
    moves.set(r3, dirs[3]);
    proof {
        assert(moves@ =~= ordered_by(keys));
    }
    moves
}

/// The keys by which `ApexBot` orders its moves.
pub open spec fn center_keys(s: Seq<GridCell>, my: GridPosition) -> Seq<int> {
    let c = counterclockwise();
    seq![center_key(s, my, c[0]), center_key(s, my, c[1]), center_key(s, my, c[2]), center_key(s, my, c[3])]
}

/// The moves in the order `ApexBot` searches them.
pub open spec fn center_order(s: Seq<GridCell>, my: GridPosition) -> Seq<Direction> {
    ordered_by(center_keys(s, my))
}

fn center_key_of(grid: &Grid, my_pos: GridPosition, d: Direction) -> (r: i32)
    requires
        grid@.len() == CELL_COUNT,
        my_pos.valid(),
    ensures
        r == center_key(grid@, my_pos, d),
{
    match my_pos.after_moved(d) {
        Some(p) => {
            if p.is_empty(grid) {
                let center = GridPosition::new(GRID_SIZE / 2, GRID_SIZE / 2).unwrap();
                proof {
                    assert(center == GridPosition(220));
                }
                p.manhattan_distance(&center) as i32
            } else {
                1000
            }
        },
        None => 1000,
    }
}

/// The four directions ordered by how close their step leads to the middle
/// of the field, open steps first, ties in counterclockwise order.
pub fn center_first_moves(grid: &Grid, my_pos: GridPosition) -> (r: Vec<Direction>)
    requires
        grid@.len() == CELL_COUNT,
        my_pos.valid(),
    ensures
        r@ == center_order(grid@, my_pos),
{
    let dirs = Direction::all();
    let k0 = center_key_of(grid, my_pos, dirs[0]);
    let k1 = center_key_of(grid, my_pos, dirs[1]);
    let k2 = center_key_of(grid, my_pos, dirs[2]);
    let k3 = center_key_of(grid, my_pos, dirs[3]);
    let r = order_by_keys(k0, k1, k2, k3);
    proof {
        assert(seq![k0 as int, k1 as int, k2 as int, k3 as int] =~= center_keys(grid@, my_pos));
    }
    r
}

/// The move, among `moves` from the `k`-th on, whose alpha-beta value
/// `depth` moves deep beats `best_val` and every move before it, with that
/// value; the window's lower end rises with each move searched.
pub open spec fn combat_pick(
    s: Seq<GridCell>,
    my: GridPosition,
    opp: GridPosition,
    moves: Seq<Direction>,
    depth: nat,
    k: nat,
    alpha: int,
    best_val: int,
    best: Option<Direction>,
) -> (Option<Direction>, int)
    decreases moves.len() - k,
{
    if k >= moves.len() {
        (best, best_val)
    } else {
        let dir = moves[k as int];
        match my.moved(dir) {
            Some(n) => if !occupied(s, n) || n == opp {
                let v = ab_value(s, none_marked().update(n.0 as int, true), n, opp, depth, alpha, MAX_EVAL as int, false);
                let bv = if v > best_val {
                    v
                } else {
                    best_val
                };
                let b = if v > best_val {
                    Some(dir)
                } else {
                    best
                };
                let a2 = if bv > alpha {
                    bv
                } else {
                    alpha
                };
                combat_pick(s, my, opp, moves, depth, k + 1, a2, bv, b)
            } else {
                combat_pick(s, my, opp, moves, depth, k + 1, alpha, best_val, best)
            },
            None => combat_pick(s, my, opp, moves, depth, k + 1, alpha, best_val, best),
        }
    }
}

/// One round of the search of a player that can still meet the other: the
/// best move by alpha-beta search `depth` moves deep, and its value.
pub fn combat_round(
    grid: &Grid,
    my_pos: GridPosition,
    opp_pos: GridPosition,
    moves: &Vec<Direction>,
    visited: &mut Vec<bool>,
    depth: u8,
) -> (r: (Option<Direction>, i32))
    requires
        grid@.len() == CELL_COUNT,
        old(visited)@ == none_marked(),
        my_pos.valid(),
        opp_pos.valid(),
    ensures
        r.0 == combat_pick(grid@, my_pos, opp_pos, moves@, depth as nat, 0, MIN_EVAL as int, MIN_EVAL as int, None).0,
        r.1 == combat_pick(grid@, my_pos, opp_pos, moves@, depth as nat, 0, MIN_EVAL as int, MIN_EVAL as int, None).1,
        final(visited)@ == none_marked(),
{
    let mut alpha = MIN_EVAL;
    let beta = MAX_EVAL;
    let mut best_val = MIN_EVAL;
    let mut current_best_move: Option<Direction> = None;
    let mut k: usize = 0;
    while k < moves.len()
        invariant
            grid@.len() == CELL_COUNT,
            visited@ == none_marked(),
            my_pos.valid(),
            opp_pos.valid(),
            beta == MAX_EVAL,
            k <= moves@.len(),
            combat_pick(grid@, my_pos, opp_pos, moves@, depth as nat, k as nat, alpha as int, best_val as int, current_best_move)
                == combat_pick(grid@, my_pos, opp_pos, moves@, depth as nat, 0, MIN_EVAL as int, MIN_EVAL as int, None),
        decreases moves@.len() - k,
    {
        let dir = moves[k];
        match my_pos.after_moved(dir) {
            Some(next_pos) => {
                if next_pos.is_empty(grid) || next_pos == opp_pos {
                    visited.set(next_pos.i(), true);
                    let val = minimax(grid, next_pos, opp_pos, visited, depth, alpha, beta, false);
                    visited.set(next_pos.i(), false);
                    proof {
                        assert(visited@ =~= none_marked());
                    }
                    if val > best_val {
                        best_val = val;
                        current_best_move = Some(dir);
                    }
                    if best_val > alpha {
                        alpha = best_val;
                    }
                }
            },
            None => {},
        }
        k = k + 1;
    }
    (current_best_move, best_val)
}

/// The move a player alone in its region chooses after `rounds` rounds of
/// deepening: the pick of the last round that found one, else the default.
pub open spec fn survival_plan(s: Seq<GridCell>, my: GridPosition, rounds: nat) -> Direction
    decreases rounds,
{
    if rounds == 0 {
        first_open(s, my, 0)
    } else {
        match survival_pick(s, my, rounds, 0, -1, None) {
            Some(m) => m,
            None => survival_plan(s, my, (rounds - 1) as nat),
        }
    }
}

/// The move a player that can still meet the other chooses after `rounds`
/// rounds of deepening, and whether a round found a winning line, which ends
/// the deepening.
pub open spec fn combat_plan(s: Seq<GridCell>, my: GridPosition, opp: GridPosition, rounds: nat) -> (Direction, bool)
    decreases rounds,
{
    if rounds == 0 {
        (first_open(s, my, 0), false)
    } else {
        let prev = combat_plan(s, my, opp, (rounds - 1) as nat);
        if prev.1 {
            prev
        } else {
            let picked = combat_pick(s, my, opp, center_order(s, my), rounds, 0, MIN_EVAL as int, MIN_EVAL as int, None);
            match picked.0 {
                Some(m) => (m, picked.1 >= MAX_EVAL - 100),
                None => (prev.0, false),
            }
        }
    }
}

/// The two heads cannot meet any more.
pub open spec fn apart(s: Seq<GridCell>, me: PlayerId) -> bool {
    !touches(empty_cells(s), head_position(s, me), head_position(s, me.spec_other()))
}

/// The most rounds of deepening `ApexBot` runs.
pub open spec fn round_limit(s: Seq<GridCell>, me: PlayerId) -> nat {
    if apart(s, me) {
        399
    } else {
        19
    }
}

/// The move `ApexBot` makes after `rounds` rounds of deepening.
pub open spec fn apex_plan(s: Seq<GridCell>, me: PlayerId, rounds: nat) -> Direction {
    let my = head_position(s, me);
    let opp = head_position(s, me.spec_other());
    if apart(s, me) {
        survival_plan(s, my, rounds)
    } else {
        combat_plan(s, my, opp, rounds).0
    }
}

/// Searches by iterative deepening while its time lasts: alone in its
/// region it maximizes how long it survives, else it plays alpha-beta
/// search with a territory evaluation.
pub struct ApexBot {
    pub me: PlayerId,
}

impl Bot for ApexBot {
    open spec fn plays_as(&self) -> PlayerId {
        self.me
    }

    fn new(my_player_id: PlayerId) -> (r: Self)
        ensures
            r.me == my_player_id,
    {
        ApexBot { me: my_player_id }
    }

    fn next_action(&mut self, game_state: &GameState) -> (r: Direction)
        ensures
            exists|n: nat|
                n <= round_limit(game_state.current(), old(self).me) && r == apex_plan(
                    game_state.current(),
                    old(self).me,
                    n,
                ),
    {
        let start_time = now();
        let grid = game_state.current_grid();
        let ghost s = grid@;
        let my_pos = self.me.get_head_pos(grid);
        let opp_pos = self.me.other().get_head_pos(grid);
        let mut visited = all_false();
        let separated = is_separated(grid, my_pos, opp_pos);
        let mut best_move = default_move(grid, my_pos);
        if separated {
            let mut depth: u16 = 1;
            while within_budget(&start_time, 85) && depth < 400
                invariant
                    s == grid@,
                    grid@.len() == CELL_COUNT,
                    my_pos.valid(),
                    visited@ == none_marked(),
                    1 <= depth <= 400,
                    best_move == survival_plan(s, my_pos, (depth - 1) as nat),
                decreases 400 - depth,
            {
                if let Some(m) = survival_round(grid, my_pos, &mut visited, depth) {
                    best_move = m;
                }
                depth = depth + 1;
            }
            proof {
                assert((depth - 1) as nat <= round_limit(s, self.me));
                assert(best_move == apex_plan(s, self.me, (depth - 1) as nat));
            }
        } else {
            let moves = center_first_moves(grid, my_pos);
            let mut depth: u8 = 1;
            let mut stopped = false;
            while !stopped && within_budget(&start_time, 85) && depth < 20
                invariant
                    s == grid@,
                    grid@.len() == CELL_COUNT,
                    my_pos.valid(),
                    opp_pos.valid(),
                    moves@ == center_order(s, my_pos),
                    visited@ == none_marked(),
                    1 <= depth <= 20,
                    (best_move, stopped) == combat_plan(s, my_pos, opp_pos, (depth - 1) as nat),
                decreases 20 - depth,
            {
                let (found, best_val) = combat_round(grid, my_pos, opp_pos, &moves, &mut visited, depth);
                if let Some(m) = found {
                    best_move = m;
                    if best_val >= MAX_EVAL - 100 {
                        stopped = true;
                    }
                }
                depth = depth + 1;
            }
            proof {
                assert((depth - 1) as nat <= round_limit(s, self.me));
                assert(best_move == apex_plan(s, self.me, (depth - 1) as nat));
            }
        }
        best_move
    }
}

impl ApexBot {
    /// The move this bot makes when its clock allows `rounds` rounds of
    /// deepening (at most `round_limit` of them count).
    pub fn planned_move(&self, game_state: &GameState, rounds: u16) -> (r: Direction)
        requires
            game_state.wf(),
        ensures
            r == apex_plan(
                game_state.current(),
                self.me,
                if rounds <= round_limit(game_state.current(), self.me) {
                    rounds as nat
                } else {
                    round_limit(game_state.current(), self.me)
                },
            ),
    {
        let grid = game_state.current_grid();
        let ghost s = grid@;
        let my_pos = self.me.get_head_pos(grid);
        let opp_pos = self.me.other().get_head_pos(grid);
        let mut visited = all_false();
        let separated = is_separated(grid, my_pos, opp_pos);
        let mut best_move = default_move(grid, my_pos);
        if separated {
            let mut depth: u16 = 1;
            while depth <= rounds && depth < 400
                invariant
                    s == grid@,
                    grid@.len() == CELL_COUNT,
                    my_pos.valid(),
                    visited@ == none_marked(),
                    1 <= depth <= 400,
                    depth - 1 <= rounds,
                    best_move == survival_plan(s, my_pos, (depth - 1) as nat),
                decreases 400 - depth,
            {
                if let Some(m) = survival_round(grid, my_pos, &mut visited, depth) {
                    best_move = m;
                }
                depth = depth + 1;
            }
        } else {
            let moves = center_first_moves(grid, my_pos);
            let mut depth: u8 = 1;
            let mut stopped = false;
            while depth as u16 <= rounds && depth < 20
                invariant
                    s == grid@,
                    grid@.len() == CELL_COUNT,
                    my_pos.valid(),
                    opp_pos.valid(),
                    moves@ == center_order(s, my_pos),
                    visited@ == none_marked(),
                    1 <= depth <= 20,
                    depth - 1 <= rounds,
                    (best_move, stopped) == combat_plan(s, my_pos, opp_pos, (depth - 1) as nat),
                decreases 20 - depth,
            {
                if !stopped {
                    let (found, best_val) = combat_round(grid, my_pos, opp_pos, &moves, &mut visited, depth);
                    if let Some(m) = found {
                        best_move = m;
                        if best_val >= MAX_EVAL - 100 {
                            stopped = true;
                        }
                    }
                }
                depth = depth + 1;
            }
        }
        best_move
    }
}

/// No cell marked.
pub open spec fn none_marked() -> Seq<bool> {
    Seq::new(CELL_COUNT as nat, |i: int| false)
}

} // verus!
