use vstd::prelude::*;

use crate::engine::grid_position::{GridPosition, CELL_COUNT};
use crate::players::chatgpt_bots::apex_bot::{
    bfs_closed, count_found, dists_ok, found, lemma_bfs_done, lemma_bfs_expanded, lemma_bfs_found,
    lemma_bfs_pop, lemma_bfs_start, lemma_found_update, lemma_new_distance, levels_found, queue_ok, shortest,
};
use crate::players::jack_papel_bots::search::{fresh_tables, lowest_f, no_score, open_contains, open_has, step_ok};
use crate::players::regions::{in_region, lemma_count_true_bound, lemma_count_true_none};

verus! {

/// The positions of the open entries, in order.
pub open spec fn open_positions(open: Seq<(usize, GridPosition)>) -> Seq<GridPosition> {
    Seq::new(open.len(), |k: int| open[k].1)
}

/// The g-scores and the ghost distance table agree: a cell has a distance
/// exactly when it has a g-score, and then the two are equal.
pub open spec fn scores_match(g: Seq<usize>, d: Seq<u16>) -> bool {
    &&& g.len() == CELL_COUNT
    &&& d.len() == CELL_COUNT
    &&& forall|i: int|
        0 <= i < CELL_COUNT ==> (#[trigger] g[i] == no_score()) == (d[i] == u16::MAX) && (g[i] != no_score() ==> g[i]
            == d[i] as usize)
}

/// Explores the cells of `allowed` reachable from `start`, always expanding
/// an open cell of lowest score first, and returns the first cell expanded
/// with the highest score, with that score: a cell of the region of `start`
/// at the greatest shortest distance, and that distance.
pub fn farthest_search(start: GridPosition, allowed: &Vec<bool>) -> (r: (usize, GridPosition))
    requires
        start.valid(),
        allowed@.len() == CELL_COUNT,
    ensures
        r.1.valid(),
        in_region(allowed@, start, r.1.0 as int),
        r.0 == shortest(allowed@, start, r.1.0 as int),
        forall|i: int|
            0 <= i < CELL_COUNT && in_region(allowed@, start, i) ==> #[trigger] shortest(allowed@, start, i) <= r.0,
{
    let ghost s = allowed@;
    let mut open: Vec<(usize, GridPosition)> = Vec::new();
    let (came, g0) = fresh_tables();
    let mut came_from = came;
    let mut g_score = g0;
    let ghost d0 = Seq::new(CELL_COUNT as nat, |i: int| u16::MAX);
    let ghost mut d: Seq<u16> = d0;
    g_score.set(start.i(), 0);
    open.push((0, start));
    let mut farthest: (usize, GridPosition) = (0, start);
    proof {
        d = d0.update(start.0 as int, 0);
        assert(open_positions(open@) =~= seq![start]);
        lemma_bfs_start(s, start, d0, d, open_positions(open@));
        lemma_count_true_none(found(d0));
        lemma_found_update(d0, start.0 as int, 0);
    }
    loop
        invariant
            start.valid(),
            s == allowed@,
            s.len() == CELL_COUNT,
            came_from@.len() == CELL_COUNT,
            scores_match(g_score@, d),
            forall|k: int| 0 <= k < open@.len() ==> (#[trigger] open@[k]).0 == d[open@[k].1.0 as int],
            dists_ok(s, start, d),
            queue_ok(d, open_positions(open@)),
            bfs_closed(s, d, open_positions(open@), -1),
            open@.len() > 0 ==> levels_found(s, start, d, d[open@[0].1.0 as int] as nat),
            open@.len() > 0 ==> forall|i: int|
                0 <= i < CELL_COUNT && d[i] != u16::MAX ==> #[trigger] d[i] <= d[open@[0].1.0 as int] + 1,
            farthest.1.valid(),
            d[farthest.1.0 as int] != u16::MAX,
            farthest.0 == d[farthest.1.0 as int],
            forall|i: int|
                0 <= i < CELL_COUNT && d[i] != u16::MAX && !open_positions(open@).contains(GridPosition(i as usize))
                    ==> #[trigger] d[i] <= farthest.0,
            count_found(d) <= CELL_COUNT,
        decreases CELL_COUNT - count_found(d), open@.len(),
    {
        if open.len() == 0 {
            proof {
                lemma_bfs_done(s, start, d, open_positions(open@));
                assert forall|i: int|
                    0 <= i < CELL_COUNT && in_region(allowed@, start, i) implies #[trigger] shortest(allowed@, start, i)
                    <= farthest.0 by {
                    assert(d[i] as int == shortest(s, start, i));
                    assert(!open_positions(open@).contains(GridPosition(i as usize)));
                }
                assert(d[farthest.1.0 as int] as int == shortest(s, start, farthest.1.0 as int));
            }
            return farthest;
        }
        let ghost before = open_positions(open@);
        let ghost open_before = open@;
        let ghost dbefore = d;
        let idx = lowest_f(&open);
        proof {
            if idx > 0 {
                reveal(queue_ok);
                assert(d[before[0].0 as int] <= d[before[idx as int].0 as int]);
                assert(open@[0].0 == d[open@[0].1.0 as int]);
                assert(open@[idx as int].0 == d[open@[idx as int].1.0 as int]);
            }
        }
        let (score, current) = open.remove(idx);
        proof {
            assert(idx == 0);
            assert(open_positions(open@) =~= before.subrange(1, before.len() as int));
            lemma_bfs_pop(s, start, d, before, open_positions(open@), current);
            assert forall|k: int| 0 <= k < open@.len() implies (#[trigger] open@[k]).0 == d[open@[k].1.0 as int] by {
                assert(open@[k] == open_before[k + 1]);
            }
        }
        let ghost level = d[current.0 as int] as nat;
        if score > farthest.0 {
            farthest = (score, current);
        }
        proof {
            assert forall|i: int|
                0 <= i < CELL_COUNT && d[i] != u16::MAX && !open_positions(open@).contains(GridPosition(i as usize))
                    implies #[trigger] d[i] <= farthest.0 by {
                if i != current.0 {
                    if before.contains(GridPosition(i as usize)) {
                        let k = choose|k: int| 0 <= k < before.len() && before[k] == GridPosition(i as usize);
                        if k == 0 {
                            assert(GridPosition(i as usize).0 == current.0);
                        } else {
                            assert(open_positions(open@)[k - 1] == before[k]);
                        }
                    }
                } else {
                    assert(GridPosition(i as usize) == current);
                }
            }
        }
        let gc = g_score[current.i()];
        let ns = current.neighbors();
        let mut j: usize = 0;
        while j < ns.len()
            invariant
                start.valid(),
                s == allowed@,
                s.len() == CELL_COUNT,
                current.valid(),
                came_from@.len() == CELL_COUNT,
                scores_match(g_score@, d),
                forall|k: int| 0 <= k < open@.len() ==> (#[trigger] open@[k]).0 == d[open@[k].1.0 as int],
                d[current.0 as int] == level,
                level < CELL_COUNT,
                gc == level,
                dists_ok(s, start, d),
                !open_positions(open@).contains(current),
                forall|k: int|
                    0 <= k < open_positions(open@).len() ==> (#[trigger] open_positions(open@)[k]).valid() && level
                        <= d[open_positions(open@)[k].0 as int] <= level + 1,
                forall|a: int, b: int|
                    0 <= a <= b < open_positions(open@).len() ==> d[(#[trigger] open_positions(open@)[a]).0 as int]
                        <= d[(#[trigger] open_positions(open@)[b]).0 as int],
                open_positions(open@).no_duplicates(),
                bfs_closed(s, d, open_positions(open@), current.0 as int),
                levels_found(s, start, d, level),
                forall|i: int| 0 <= i < CELL_COUNT && d[i] != u16::MAX ==> #[trigger] d[i] <= level + 1,
                farthest.1.valid(),
                d[farthest.1.0 as int] != u16::MAX,
                farthest.0 == d[farthest.1.0 as int],
                forall|i: int|
                    0 <= i < CELL_COUNT && d[i] != u16::MAX && !open_positions(open@).contains(GridPosition(i as usize))
                        ==> #[trigger] d[i] <= farthest.0,
                j <= ns@.len(),
                forall|k: int| 0 <= k < ns@.len() ==> (#[trigger] ns@[k]).valid(),
                forall|x: GridPosition| ns@.contains(x) <==> current.adjacent(x),
                forall|k: int| 0 <= k < j && s[ns@[k].0 as int] ==> d[(#[trigger] ns@[k]).0 as int] != u16::MAX,
                count_found(d) >= count_found(dbefore),
                count_found(d) == count_found(dbefore) ==> open@.len() == before.len() - 1,
                count_found(d) <= CELL_COUNT,
            decreases ns@.len() - j,
        {
            let n = ns[j];
            proof {
                assert(ns@.contains(n));
                assert(g_score@[n.0 as int] == no_score() <==> d[n.0 as int] == u16::MAX);
            }
            if allowed[n.i()] {
                let tentative = gc + 1;
                if tentative < g_score[n.i()] {
                    let ghost db = d;
                    let ghost gb = g_score@;
                    let ghost qb = open_positions(open@);
                    let ghost ob = open@;
                    proof {
                        assert(d[n.0 as int] == u16::MAX);
                        assert(step_ok(s, current, n));
                        lemma_new_distance(s, start, d, qb, current, n, level);
                        lemma_found_update(db, n.0 as int, (level + 1) as u16);
                        lemma_count_true_bound(found(db.update(n.0 as int, (level + 1) as u16)));
                    }
                    came_from.set(n.i(), Some(current));
                    g_score.set(n.i(), tentative);
                    proof {
                        d = db.update(n.0 as int, (level + 1) as u16);
                    }
                    let already_open = open_contains(&open, n);
                    proof {
                        if already_open {
                            let k = choose|k: int| 0 <= k < ob.len() && #[trigger] ob[k].1 == n;
                            assert(qb[k] == n);
                        }
                    }
                    if !already_open {
                        open.push((tentative, n));
                    }
                    proof {
                        assert(open_positions(open@) =~= qb.push(n));
                        lemma_bfs_found(s, start, db, d, qb, open_positions(open@), current, n, level);
                        assert forall|i: int| 0 <= i < CELL_COUNT implies (#[trigger] g_score@[i] == no_score()) == (d[i]
                            == u16::MAX) && (g_score@[i] != no_score() ==> g_score@[i] == d[i] as usize) by {
                            if i != n.0 {
                                assert(g_score@[i] == gb[i]);
                                assert(d[i] == db[i]);
                            }
                        }
                        assert forall|k: int| 0 <= k < open@.len() implies (#[trigger] open@[k]).0 == d[open@[k].1.0 as int] by {
                            if k < ob.len() {
                                assert(open@[k] == ob[k]);
                                assert(qb[k] != n);
                            }
                        }
                        assert forall|i: int|
                            0 <= i < CELL_COUNT && d[i] != u16::MAX && !open_positions(open@).contains(
                                GridPosition(i as usize),
                            ) implies #[trigger] d[i] <= farthest.0 by {
                            if i == n.0 {
                                assert(open_positions(open@)[qb.len() as int] == n);
                            } else {
                                assert(db[i] == d[i]);
                                if qb.contains(GridPosition(i as usize)) {
                                    let k = choose|k: int| 0 <= k < qb.len() && qb[k] == GridPosition(i as usize);
                                    assert(open_positions(open@)[k] == qb[k]);
                                }
                            }
                        }
                    }
                }
            }
            j = j + 1;
        }
        proof {
            lemma_bfs_expanded(s, start, d, open_positions(open@), current, ns@, level);
            if open@.len() > 0 {
                assert(open_positions(open@)[0] == open@[0].1);
            }
        }
    }
}

} // verus!
