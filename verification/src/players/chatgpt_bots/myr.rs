use vstd::prelude::*;

use std::time::Instant;

use crate::engine::direction::{counterclockwise, Direction};
use crate::engine::grid::{occupied, Grid};
use crate::engine::grid_cell::GridCell;
use crate::engine::grid_position::{GridPosition, CELL_COUNT, GRID_SIZE};
use crate::players::chatgpt_bots::apex_bot::{
    count_found, dists_ok, found, lemma_bfs_done, lemma_bfs_expanded, lemma_bfs_found, lemma_bfs_pop,
    lemma_bfs_start, lemma_found_update, lemma_new_distance, levels_found, queue_ok, bfs_closed, shortest,
};
use crate::clock::{now, within_budget};
use crate::engine::bot::Bot;
use crate::engine::game_state::GameState;
use crate::engine::grid::head_position;
use crate::engine::player_id::PlayerId;
use crate::players::chatgpt_bots::apex_bot::{
    all_false, apart, center, default_move, distance_table, first_open, free_count, free_steps, none_marked,
    order_by_keys, ordered_by, survival_best, survival_pick, survival_plan, survival_value, touches, DRAW_EVAL,
    MAX_EVAL, MIN_EVAL,
};
use crate::players::jack_papel_bots::empty_cells;
use crate::players::jack_papel_bots::search::{is_path, step_ok};
use crate::players::regions::{in_region, lemma_count_true_bound, open_mask, region_size};

verus! {

/// The number of 64-bit words of a `BitBoard`.
pub const BITBOARD_WORDS: usize = 7;

/// One bit per cell of the field.
#[derive(Clone, Copy)]
pub struct BitBoard(pub [u64; BITBOARD_WORDS]);

/// Bit `b` of `w`.
pub open spec fn word_bit(w: u64, b: u64) -> bool {
    (w >> b) & 1 == 1
}

proof fn lemma_bit_set(w: u64, b: u64, c: u64)
    requires
        b < 64,
        c < 64,
    ensures
        word_bit(w | (1u64 << b), c) == if c == b {
            true
        } else {
            word_bit(w, c)
        },
{
    assert(((w | (1u64 << b)) >> c) & 1 == 1 <==> (c == b || (w >> c) & 1 == 1)) by (bit_vector)
        requires
            b < 64,
            c < 64,
    ;
}

proof fn lemma_bit_clear(w: u64, b: u64, c: u64)
    requires
        b < 64,
        c < 64,
    ensures
        word_bit(w & !(1u64 << b), c) == if c == b {
            false
        } else {
            word_bit(w, c)
        },
{
    assert(((w & !(1u64 << b)) >> c) & 1 == 1 <==> (c != b && (w >> c) & 1 == 1)) by (bit_vector)
        requires
            b < 64,
            c < 64,
    ;
}

proof fn lemma_bit_get(w: u64, b: u64)
    requires
        b < 64,
    ensures
        ((w & (1u64 << b)) != 0) == word_bit(w, b),
{
    assert(((w & (1u64 << b)) != 0) <==> ((w >> b) & 1 == 1)) by (bit_vector)
        requires
            b < 64,
    ;
}

proof fn lemma_bit_zero(c: u64)
    ensures
        !word_bit(0, c),
{
    assert((0u64 >> c) & 1 != 1) by (bit_vector);
}

/// The words `w` of a board with bit `i` set (`v`) or cleared (`!v`), every
/// other bit, spare ones included, as it was.
pub open spec fn words_with_bit(w: Seq<u64>, i: int, v: bool) -> Seq<u64> {
    let m = 1u64 << ((i % 64) as u64);
    w.update(i / 64, if v {
        w[i / 64] | m
    } else {
        w[i / 64] & !m
    })
}

/// Setting a bit that was clear and then clearing it gives back the very
/// words the board had, spare bits included.
pub proof fn lemma_set_then_clear(w: Seq<u64>, i: int)
    requires
        0 <= i < CELL_COUNT,
        w.len() == BITBOARD_WORDS,
        !word_bit(w[i / 64], (i % 64) as u64),
    ensures
        words_with_bit(words_with_bit(w, i, true), i, false) == w,
{
    let x = w[i / 64];
    let c = (i % 64) as u64;
    assert(((x | (1u64 << c)) & !(1u64 << c)) == x) by (bit_vector)
        requires
            c < 64,
            (x >> c) & 1 != 1,
    ;
    assert(words_with_bit(words_with_bit(w, i, true), i, false) =~= w);
}

impl BitBoard {
    /// Bit `i` of the board.
    pub open spec fn bit(self, i: int) -> bool {
        word_bit(self.0@[i / 64], (i % 64) as u64)
    }

    /// The bits of the cells of the field.
    pub open spec fn bits(self) -> Seq<bool> {
        Seq::new(CELL_COUNT as nat, |i: int| self.bit(i))
    }

    /// A board with no bit set.
    pub fn new() -> (r: Self)
        ensures
            forall|i: int| 0 <= i < CELL_COUNT ==> !#[trigger] r.bit(i),
    {
        let r = BitBoard([0u64, 0u64, 0u64, 0u64, 0u64, 0u64, 0u64]);
        proof {
            assert forall|i: int| 0 <= i < CELL_COUNT implies !#[trigger] r.bit(i) by {
                assert(r.0@[i / 64] == 0);
                lemma_bit_zero((i % 64) as u64);
            }
        }
        r
    }

    /// Sets bit `i`.
    pub fn set(&mut self, i: usize)
        requires
            i < CELL_COUNT,
        ensures
            final(self).0@ == words_with_bit(old(self).0@, i as int, true),
            forall|j: int| 0 <= j < CELL_COUNT ==> #[trigger] final(self).bit(j) == if j == i {
                true
            } else {
                old(self).bit(j)
            },
    {
        let w = self.0[i / 64];
        self.0[i / 64] = w | (1u64 << ((i % 64) as u64));
        proof {
            assert(self.0@ =~= words_with_bit(old(self).0@, i as int, true));
            assert forall|j: int| 0 <= j < CELL_COUNT implies #[trigger] self.bit(j) == if j == i {
                true
            } else {
                old(self).bit(j)
            } by {
                lemma_bit_set(w, (i % 64) as u64, (j % 64) as u64);
                if j / 64 == i / 64 && j != i {
                    assert(j % 64 != i % 64);
                }
            }
        }
    }

    /// Clears bit `i`.
    pub fn clear(&mut self, i: usize)
        requires
            i < CELL_COUNT,
        ensures
            final(self).0@ == words_with_bit(old(self).0@, i as int, false),
            forall|j: int| 0 <= j < CELL_COUNT ==> #[trigger] final(self).bit(j) == if j == i {
                false
            } else {
                old(self).bit(j)
            },
    {
        let w = self.0[i / 64];
        self.0[i / 64] = w & !(1u64 << ((i % 64) as u64));
        proof {
            assert(self.0@ =~= words_with_bit(old(self).0@, i as int, false));
            assert forall|j: int| 0 <= j < CELL_COUNT implies #[trigger] self.bit(j) == if j == i {
                false
            } else {
                old(self).bit(j)
            } by {
                lemma_bit_clear(w, (i % 64) as u64, (j % 64) as u64);
                if j / 64 == i / 64 && j != i {
                    assert(j % 64 != i % 64);
                }
            }
        }
    }

    /// Bit `i`.
    pub fn get(&self, i: usize) -> (r: bool)
        requires
            i < CELL_COUNT,
        ensures
            r == self.bit(i as int),
    {
        proof {
            lemma_bit_get(self.0@[(i / 64) as int], (i % 64) as u64);
        }
        (self.0[i / 64] & (1u64 << ((i % 64) as u64))) != 0
    }
}

/// Tables reused by all the searches of one move. A cell is marked in the
/// current search when its entry of `visited_epoch` equals `current_epoch`;
/// starting a search with a new epoch unmarks every cell at once.
pub struct SearchContext {
    pub q: Vec<GridPosition>,
    pub visited_epoch: Vec<u32>,
    pub current_epoch: u32,
    pub dist_m: Vec<u16>,
    pub dist_o: Vec<u16>,
    pub nodes_evaluated: u32,
    pub art_board: BitBoard,
}

fn filled_u16(v: u16) -> (r: Vec<u16>)
    ensures
        r@.len() == CELL_COUNT,
        forall|i: int| 0 <= i < CELL_COUNT ==> r@[i] == v,
{
    let mut r: Vec<u16> = Vec::new();
    let mut k: usize = 0;
    while k < CELL_COUNT
        invariant
            k <= CELL_COUNT,
            r@.len() == k,
            forall|i: int| 0 <= i < k ==> r@[i] == v,
        decreases CELL_COUNT - k,
    {
        r.push(v);
        k = k + 1;
    }
    r
}

impl SearchContext {
    /// The tables have one entry per cell, and no cell is marked with an
    /// epoch that has not started yet.
    pub open spec fn wf(self) -> bool {
        &&& self.q@.len() == CELL_COUNT
        &&& self.visited_epoch@.len() == CELL_COUNT
        &&& self.dist_m@.len() == CELL_COUNT
        &&& self.dist_o@.len() == CELL_COUNT
        &&& forall|i: int| 0 <= i < CELL_COUNT ==> #[trigger] self.visited_epoch@[i] <= self.current_epoch
    }

    /// Fresh tables, at epoch 0, with no articulation point marked.
    pub fn new() -> (r: Self)
        ensures
            r.wf(),
            r.current_epoch == 0,
            r.nodes_evaluated == 0,
            forall|i: int| 0 <= i < CELL_COUNT ==> !#[trigger] r.art_board.bit(i),
    {
        let origin = GridPosition::new_from_usize(0).unwrap();
        let mut q: Vec<GridPosition> = Vec::new();
        let mut visited_epoch: Vec<u32> = Vec::new();
        let mut k: usize = 0;
        while k < CELL_COUNT
            invariant
                k <= CELL_COUNT,
                q@.len() == k,
                visited_epoch@.len() == k,
                forall|i: int| 0 <= i < k ==> visited_epoch@[i] == 0,
            decreases CELL_COUNT - k,
        {
            q.push(origin);
            visited_epoch.push(0);
            k = k + 1;
        }
        SearchContext {
            q,
            visited_epoch,
            current_epoch: 0,
            dist_m: filled_u16(u16::MAX),
            dist_o: filled_u16(u16::MAX),
            nodes_evaluated: 0,
            art_board: BitBoard::new(),
        }
    }

    /// Starts a new epoch, which unmarks every cell, and returns it.
    pub fn next_epoch(&mut self) -> (r: u32)
        requires
            old(self).wf(),
            old(self).current_epoch < u32::MAX,
        ensures
            r == old(self).current_epoch + 1,
            *final(self) == (SearchContext { current_epoch: r, ..*old(self) }),
            final(self).wf(),
            forall|i: int| 0 <= i < CELL_COUNT ==> #[trigger] final(self).visited_epoch@[i] < r,
    {
        self.current_epoch = self.current_epoch + 1;
        self.current_epoch
    }
}

/// Breadth-first search from `start` through the empty cells whose bit is
/// clear in `board`, marking the cells it finds with `epoch` and filling
/// `dists` with their shortest distances (`u16::MAX` where none).
fn epoch_bfs(
    grid: &Grid,
    board: &BitBoard,
    start: GridPosition,
    epoch: u32,
    q: &mut Vec<GridPosition>,
    marks: &mut Vec<u32>,
    dists: &mut Vec<u16>,
)
    requires
        grid@.len() == CELL_COUNT,
        start.valid(),
        old(q)@.len() == CELL_COUNT,
        old(marks)@.len() == CELL_COUNT,
        old(dists)@.len() == CELL_COUNT,
        forall|i: int| 0 <= i < CELL_COUNT ==> #[trigger] old(marks)@[i] < epoch,
    ensures
        final(q)@.len() == CELL_COUNT,
        final(marks)@.len() == CELL_COUNT,
        final(dists)@.len() == CELL_COUNT,
        forall|i: int| 0 <= i < CELL_COUNT ==> #[trigger] final(marks)@[i] <= epoch,
        forall|i: int|
            0 <= i < CELL_COUNT ==> final(dists)@[i] as int == #[trigger] shortest(open_mask(grid@, board.bits()), start, i),
{
    let ghost s = open_mask(grid@, board.bits());
    let mut k: usize = 0;
    while k < CELL_COUNT
        invariant
            k <= CELL_COUNT,
            dists@.len() == CELL_COUNT,
            forall|i: int| 0 <= i < k ==> dists@[i] == u16::MAX,
        decreases CELL_COUNT - k,
    {
        dists.set(k, u16::MAX);
        k = k + 1;
    }
    let ghost d0 = dists@;
    q.set(0, start);
    let mut head: usize = 0;
    let mut tail: usize = 1;
    dists.set(start.i(), 0);
    marks.set(start.i(), epoch);
    proof {
        assert(q@.subrange(0, 1) =~= seq![start]);
        lemma_bfs_start(s, start, d0, dists@, q@.subrange(0, 1));
        lemma_found_update(d0, start.0 as int, 0);
        lemma_count_true_bound(found(d0));
        assert forall|i: int| 0 <= i < CELL_COUNT implies (#[trigger] marks@[i] == epoch) == (dists@[i] != u16::MAX)
            && marks@[i] <= epoch by {
            if i != start.0 {
                assert(d0[i] == u16::MAX);
            }
        }
        crate::players::regions::lemma_count_true_none(found(d0));
    }
    while head < tail
        invariant
            grid@.len() == CELL_COUNT,
            start.valid(),
            s == open_mask(grid@, board.bits()),
            q@.len() == CELL_COUNT,
            marks@.len() == CELL_COUNT,
            dists@.len() == CELL_COUNT,
            head <= tail,
            tail == count_found(dists@),
            tail <= CELL_COUNT,
            forall|i: int| 0 <= i < CELL_COUNT ==> (#[trigger] marks@[i] == epoch) == (dists@[i] != u16::MAX) && marks@[i] <= epoch,
            dists_ok(s, start, dists@),
            queue_ok(dists@, q@.subrange(head as int, tail as int)),
            bfs_closed(s, dists@, q@.subrange(head as int, tail as int), -1),
            head < tail ==> levels_found(s, start, dists@, dists@[q@[head as int].0 as int] as nat),
        decreases CELL_COUNT - head,
    {
        let ghost before = q@.subrange(head as int, tail as int);
        let curr = q[head];
        head = head + 1;
        proof {
            assert(before[0] == curr);
            assert(q@.subrange(head as int, tail as int) =~= before.subrange(1, before.len() as int));
            lemma_bfs_pop(s, start, dists@, before, q@.subrange(head as int, tail as int), curr);
        }
        let ghost level = dists@[curr.0 as int] as nat;
        let d = dists[curr.i()] + 1;
        let ns = curr.neighbors();
        let mut j: usize = 0;
        while j < ns.len()
            invariant
                grid@.len() == CELL_COUNT,
                start.valid(),
                s == open_mask(grid@, board.bits()),
                curr.valid(),
                q@.len() == CELL_COUNT,
                marks@.len() == CELL_COUNT,
                dists@.len() == CELL_COUNT,
                head <= tail,
                tail == count_found(dists@),
                tail <= CELL_COUNT,
                forall|i: int| 0 <= i < CELL_COUNT ==> (#[trigger] marks@[i] == epoch) == (dists@[i] != u16::MAX) && marks@[i] <= epoch,
                dists@[curr.0 as int] == level,
                level < CELL_COUNT,
                d == level + 1,
                dists_ok(s, start, dists@),
                !q@.subrange(head as int, tail as int).contains(curr),
                forall|k: int|
                    0 <= k < q@.subrange(head as int, tail as int).len() ==> (#[trigger] q@.subrange(head as int, tail as int)[k]).valid()
                        && level <= dists@[q@.subrange(head as int, tail as int)[k].0 as int] <= level + 1,
                forall|a: int, b: int|
                    0 <= a <= b < q@.subrange(head as int, tail as int).len() ==> dists@[(#[trigger] q@.subrange(head as int, tail as int)[a]).0 as int]
                        <= dists@[(#[trigger] q@.subrange(head as int, tail as int)[b]).0 as int],
                q@.subrange(head as int, tail as int).no_duplicates(),
                bfs_closed(s, dists@, q@.subrange(head as int, tail as int), curr.0 as int),
                levels_found(s, start, dists@, level),
                j <= ns@.len(),
                forall|k: int| 0 <= k < ns@.len() ==> (#[trigger] ns@[k]).valid(),
                forall|x: GridPosition| ns@.contains(x) <==> curr.adjacent(x),
                forall|k: int| 0 <= k < j && s[ns@[k].0 as int] ==> dists@[(#[trigger] ns@[k]).0 as int] != u16::MAX,
            decreases ns@.len() - j,
        {
            let n = ns[j];
            let ni = n.i();
            proof {
                assert(ns@.contains(n));
                assert(GridPosition(n.0 as usize) == n);
                assert(s[n.0 as int] == (!occupied(grid@, n) && !board.bit(n.0 as int)));
            }
            if n.is_empty(grid) && !board.get(ni) && marks[ni] != epoch {
                let ghost db = dists@;
                let ghost qb = q@.subrange(head as int, tail as int);
                proof {
                    assert(step_ok(s, curr, n));
                    lemma_new_distance(s, start, dists@, qb, curr, n, level);
                    lemma_found_update(db, ni as int, d);
                    lemma_count_true_bound(found(db.update(ni as int, d)));
                }
                marks.set(ni, epoch);
                dists.set(ni, d);
                q.set(tail, n);
                tail = tail + 1;
                proof {
                    assert(q@.subrange(head as int, tail as int) =~= qb.push(n));
                    lemma_bfs_found(s, start, db, dists@, qb, q@.subrange(head as int, tail as int), curr, n, level);
                    assert forall|i: int| 0 <= i < CELL_COUNT implies (#[trigger] marks@[i] == epoch) == (dists@[i] != u16::MAX)
                        && marks@[i] <= epoch by {
                        if i != ni {
                            assert(db[i] == dists@[i]);
                        }
                    }
                }
            }
            j = j + 1;
        }
        proof {
            lemma_bfs_expanded(s, start, dists@, q@.subrange(head as int, tail as int), curr, ns@, level);
        }
    }
    proof {
        lemma_bfs_done(s, start, dists@, q@.subrange(head as int, tail as int));
    }
}

/// Counts the cells of the region of `start` through the empty cells whose
/// bit is clear in `board`, marking them with `epoch`. The search is
/// breadth-first; the distances it keeps are ghost.
fn epoch_flood_fill(
    grid: &Grid,
    board: &BitBoard,
    start: GridPosition,
    epoch: u32,
    q: &mut Vec<GridPosition>,
    marks: &mut Vec<u32>,
) -> (r: u16)
    requires
        grid@.len() == CELL_COUNT,
        start.valid(),
        old(q)@.len() == CELL_COUNT,
        old(marks)@.len() == CELL_COUNT,
        forall|i: int| 0 <= i < CELL_COUNT ==> #[trigger] old(marks)@[i] < epoch,
    ensures
        final(q)@.len() == CELL_COUNT,
        final(marks)@.len() == CELL_COUNT,
        forall|i: int| 0 <= i < CELL_COUNT ==> #[trigger] final(marks)@[i] <= epoch,
        r == region_size(open_mask(grid@, board.bits()), start),
{
    let ghost s = open_mask(grid@, board.bits());
    let ghost d0 = Seq::new(CELL_COUNT as nat, |i: int| u16::MAX);
    let ghost mut dists: Seq<u16> = d0;
    q.set(0, start);
    let mut head: usize = 0;
    let mut tail: usize = 1;
    let mut count: u16 = 0;
    proof {
        dists = d0.update(start.0 as int, 0);
    }
    marks.set(start.i(), epoch);
    proof {
        assert(q@.subrange(0, 1) =~= seq![start]);
        lemma_bfs_start(s, start, d0, dists, q@.subrange(0, 1));
        lemma_found_update(d0, start.0 as int, 0);
        lemma_count_true_bound(found(d0));
        assert forall|i: int| 0 <= i < CELL_COUNT implies (#[trigger] marks@[i] == epoch) == (dists[i] != u16::MAX)
            && marks@[i] <= epoch by {
            if i != start.0 {
                assert(d0[i] == u16::MAX);
            }
        }
        crate::players::regions::lemma_count_true_none(found(d0));
    }
    while head < tail
        invariant
            grid@.len() == CELL_COUNT,
            start.valid(),
            s == open_mask(grid@, board.bits()),
            q@.len() == CELL_COUNT,
            marks@.len() == CELL_COUNT,
            dists.len() == CELL_COUNT,
            head <= tail,
            count == head,
            tail == count_found(dists),
            tail <= CELL_COUNT,
            forall|i: int| 0 <= i < CELL_COUNT ==> (#[trigger] marks@[i] == epoch) == (dists[i] != u16::MAX) && marks@[i] <= epoch,
            dists_ok(s, start, dists),
            queue_ok(dists, q@.subrange(head as int, tail as int)),
            bfs_closed(s, dists, q@.subrange(head as int, tail as int), -1),
            head < tail ==> levels_found(s, start, dists, dists[q@[head as int].0 as int] as nat),
        decreases CELL_COUNT - head,
    {
        let ghost before = q@.subrange(head as int, tail as int);
        let curr = q[head];
        head = head + 1;
        count = count + 1;
        proof {
            assert(before[0] == curr);
            assert(q@.subrange(head as int, tail as int) =~= before.subrange(1, before.len() as int));
            lemma_bfs_pop(s, start, dists, before, q@.subrange(head as int, tail as int), curr);
        }
        let ghost level = dists[curr.0 as int] as nat;
        let ghost d = (level + 1) as u16;
        let ns = curr.neighbors();
        let mut j: usize = 0;
        while j < ns.len()
            invariant
                grid@.len() == CELL_COUNT,
                start.valid(),
                s == open_mask(grid@, board.bits()),
                curr.valid(),
                q@.len() == CELL_COUNT,
                marks@.len() == CELL_COUNT,
                dists.len() == CELL_COUNT,
                head <= tail,
                count == head,
                tail == count_found(dists),
                tail <= CELL_COUNT,
                forall|i: int| 0 <= i < CELL_COUNT ==> (#[trigger] marks@[i] == epoch) == (dists[i] != u16::MAX) && marks@[i] <= epoch,
                dists[curr.0 as int] == level,
                level < CELL_COUNT,
                d == level + 1,
                dists_ok(s, start, dists),
                !q@.subrange(head as int, tail as int).contains(curr),
                forall|k: int|
                    0 <= k < q@.subrange(head as int, tail as int).len() ==> (#[trigger] q@.subrange(head as int, tail as int)[k]).valid()
                        && level <= dists[q@.subrange(head as int, tail as int)[k].0 as int] <= level + 1,
                forall|a: int, b: int|
                    0 <= a <= b < q@.subrange(head as int, tail as int).len() ==> dists[(#[trigger] q@.subrange(head as int, tail as int)[a]).0 as int]
                        <= dists[(#[trigger] q@.subrange(head as int, tail as int)[b]).0 as int],
                q@.subrange(head as int, tail as int).no_duplicates(),
                bfs_closed(s, dists, q@.subrange(head as int, tail as int), curr.0 as int),
                levels_found(s, start, dists, level),
                j <= ns@.len(),
                forall|k: int| 0 <= k < ns@.len() ==> (#[trigger] ns@[k]).valid(),
                forall|x: GridPosition| ns@.contains(x) <==> curr.adjacent(x),
                forall|k: int| 0 <= k < j && s[ns@[k].0 as int] ==> dists[(#[trigger] ns@[k]).0 as int] != u16::MAX,
            decreases ns@.len() - j,
        {
            let n = ns[j];
            let ni = n.i();
            proof {
                assert(ns@.contains(n));
                assert(GridPosition(n.0 as usize) == n);
                assert(s[n.0 as int] == (!occupied(grid@, n) && !board.bit(n.0 as int)));
            }
            if n.is_empty(grid) && !board.get(ni) && marks[ni] != epoch {
                let ghost db = dists;
                let ghost qb = q@.subrange(head as int, tail as int);
                proof {
                    assert(step_ok(s, curr, n));
                    lemma_new_distance(s, start, dists, qb, curr, n, level);
                    lemma_found_update(db, ni as int, d);
                    lemma_count_true_bound(found(db.update(ni as int, d)));
                }
                marks.set(ni, epoch);
                proof {
                    dists = dists.update(ni as int, d);
                }
                q.set(tail, n);
                tail = tail + 1;
                proof {
                    assert(q@.subrange(head as int, tail as int) =~= qb.push(n));
                    lemma_bfs_found(s, start, db, dists, qb, q@.subrange(head as int, tail as int), curr, n, level);
                    assert forall|i: int| 0 <= i < CELL_COUNT implies (#[trigger] marks@[i] == epoch) == (dists[i] != u16::MAX)
                        && marks@[i] <= epoch by {
                        if i != ni {
                            assert(db[i] == dists[i]);
                        }
                    }
                }
            }
            j = j + 1;
        }
        proof {
            lemma_bfs_expanded(s, start, dists, q@.subrange(head as int, tail as int), curr, ns@, level);
        }
    }
    proof {
        lemma_bfs_done(s, start, dists, q@.subrange(head as int, tail as int));
        assert(found(dists) =~= Seq::new(CELL_COUNT as nat, |i: int| in_region(s, start, i)));
    }
    count
}

/// Searches the empty cells that can be reached from `start`, marking them
/// with `epoch`; `false` as soon as one of them (or `start` itself) lies
/// next to `opp`, `true` when none does. The search is breadth-first; the
/// distances it keeps are ghost.
fn epoch_separated(
    grid: &Grid,
    start: GridPosition,
    opp: GridPosition,
    epoch: u32,
    q: &mut Vec<GridPosition>,
    marks: &mut Vec<u32>,
) -> (r: bool)
    requires
        grid@.len() == CELL_COUNT,
        start.valid(),
        old(q)@.len() == CELL_COUNT,
        old(marks)@.len() == CELL_COUNT,
        forall|i: int| 0 <= i < CELL_COUNT ==> #[trigger] old(marks)@[i] < epoch,
    ensures
        final(q)@.len() == CELL_COUNT,
        final(marks)@.len() == CELL_COUNT,
        forall|i: int| 0 <= i < CELL_COUNT ==> #[trigger] final(marks)@[i] <= epoch,
        r == !touches(empty_cells(grid@), start, opp),
{
    let ghost s = empty_cells(grid@);
    let ghost d0 = Seq::new(CELL_COUNT as nat, |i: int| u16::MAX);
    let ghost mut dists: Seq<u16> = d0;
    q.set(0, start);
    let mut head: usize = 0;
    let mut tail: usize = 1;
    proof {
        dists = d0.update(start.0 as int, 0);
    }
    marks.set(start.i(), epoch);
    proof {
        assert(q@.subrange(0, 1) =~= seq![start]);
        lemma_bfs_start(s, start, d0, dists, q@.subrange(0, 1));
        lemma_found_update(d0, start.0 as int, 0);
        lemma_count_true_bound(found(d0));
        assert forall|i: int| 0 <= i < CELL_COUNT implies (#[trigger] marks@[i] == epoch) == (dists[i] != u16::MAX)
            && marks@[i] <= epoch by {
            if i != start.0 {
                assert(d0[i] == u16::MAX);
            }
        }
        crate::players::regions::lemma_count_true_none(found(d0));
        assert forall|i: int|
            0 <= i < CELL_COUNT && dists[i] != u16::MAX && !q@.subrange(head as int, tail as int).contains(
                GridPosition(i as usize),
            ) implies !(#[trigger] GridPosition(i as usize).adjacent(opp)) by {
            if i != start.0 {
                assert(d0[i] == u16::MAX);
            } else {
                assert(GridPosition(i as usize) == start);
                assert(q@.subrange(head as int, tail as int)[0] == start);
            }
        }
    }
    while head < tail
        invariant
            grid@.len() == CELL_COUNT,
            start.valid(),
            s == empty_cells(grid@),
            q@.len() == CELL_COUNT,
            marks@.len() == CELL_COUNT,
            dists.len() == CELL_COUNT,
            head <= tail,
            tail == count_found(dists),
            tail <= CELL_COUNT,
            forall|i: int| 0 <= i < CELL_COUNT ==> (#[trigger] marks@[i] == epoch) == (dists[i] != u16::MAX) && marks@[i] <= epoch,
            dists_ok(s, start, dists),
            queue_ok(dists, q@.subrange(head as int, tail as int)),
            bfs_closed(s, dists, q@.subrange(head as int, tail as int), -1),
            head < tail ==> levels_found(s, start, dists, dists[q@[head as int].0 as int] as nat),
            forall|i: int|
                0 <= i < CELL_COUNT && dists[i] != u16::MAX && !q@.subrange(head as int, tail as int).contains(
                    GridPosition(i as usize),
                ) ==> !(#[trigger] GridPosition(i as usize).adjacent(opp)),
        decreases CELL_COUNT - head,
    {
        let ghost before = q@.subrange(head as int, tail as int);
        let curr = q[head];
        head = head + 1;
        proof {
            assert(before[0] == curr);
            assert(q@.subrange(head as int, tail as int) =~= before.subrange(1, before.len() as int));
            lemma_bfs_pop(s, start, dists, before, q@.subrange(head as int, tail as int), curr);
            assert forall|i: int|
                0 <= i < CELL_COUNT && i != curr.0 && dists[i] != u16::MAX && !q@.subrange(head as int, tail as int).contains(
                    GridPosition(i as usize),
                ) implies !(#[trigger] GridPosition(i as usize).adjacent(opp)) by {
                if before.contains(GridPosition(i as usize)) {
                    let k = choose|k: int| 0 <= k < before.len() && before[k] == GridPosition(i as usize);
                    if k > 0 {
                        assert(q@.subrange(head as int, tail as int)[k - 1] == before[k]);
                    }
                }
            }
        }
        let ghost level = dists[curr.0 as int] as nat;
        let ghost d = (level + 1) as u16;
        let ns = curr.neighbors();
        let mut j: usize = 0;
        while j < ns.len()
            invariant
                grid@.len() == CELL_COUNT,
                start.valid(),
                s == empty_cells(grid@),
                curr.valid(),
                q@.len() == CELL_COUNT,
                marks@.len() == CELL_COUNT,
                dists.len() == CELL_COUNT,
                head <= tail,
                    tail == count_found(dists),
                tail <= CELL_COUNT,
                forall|i: int| 0 <= i < CELL_COUNT ==> (#[trigger] marks@[i] == epoch) == (dists[i] != u16::MAX) && marks@[i] <= epoch,
                dists[curr.0 as int] == level,
                level < CELL_COUNT,
                d == level + 1,
                dists_ok(s, start, dists),
                !q@.subrange(head as int, tail as int).contains(curr),
                forall|k: int|
                    0 <= k < q@.subrange(head as int, tail as int).len() ==> (#[trigger] q@.subrange(head as int, tail as int)[k]).valid()
                        && level <= dists[q@.subrange(head as int, tail as int)[k].0 as int] <= level + 1,
                forall|a: int, b: int|
                    0 <= a <= b < q@.subrange(head as int, tail as int).len() ==> dists[(#[trigger] q@.subrange(head as int, tail as int)[a]).0 as int]
                        <= dists[(#[trigger] q@.subrange(head as int, tail as int)[b]).0 as int],
                q@.subrange(head as int, tail as int).no_duplicates(),
                bfs_closed(s, dists, q@.subrange(head as int, tail as int), curr.0 as int),
                levels_found(s, start, dists, level),
                forall|i: int|
                    0 <= i < CELL_COUNT && i != curr.0 && dists[i] != u16::MAX && !q@.subrange(head as int, tail as int).contains(
                        GridPosition(i as usize),
                    ) ==> !(#[trigger] GridPosition(i as usize).adjacent(opp)),
                forall|k: int| 0 <= k < j ==> #[trigger] ns@[k] != opp,
                j <= ns@.len(),
                forall|k: int| 0 <= k < ns@.len() ==> (#[trigger] ns@[k]).valid(),
                forall|x: GridPosition| ns@.contains(x) <==> curr.adjacent(x),
                forall|k: int| 0 <= k < j && s[ns@[k].0 as int] ==> dists[(#[trigger] ns@[k]).0 as int] != u16::MAX,
            decreases ns@.len() - j,
        {
            let n = ns[j];
            let ni = n.i();
            proof {
                assert(ns@.contains(n));
                assert(GridPosition(n.0 as usize) == n);
                assert(s[n.0 as int] == !occupied(grid@, n));
            }
            if n == opp {
                proof {
                    reveal(dists_ok);
                    assert(dists[curr.0 as int] != u16::MAX);
                    assert(in_region(s, start, curr.0 as int));
                    assert(in_region(s, start, curr.0 as int) && curr.valid() && curr.adjacent(opp));
                }
                return false;
            }
            if n.is_empty(grid) && marks[ni] != epoch {
                let ghost db = dists;
                let ghost qb = q@.subrange(head as int, tail as int);
                proof {
                    assert(step_ok(s, curr, n));
                    lemma_new_distance(s, start, dists, qb, curr, n, level);
                    lemma_found_update(db, ni as int, d);
                    lemma_count_true_bound(found(db.update(ni as int, d)));
                }
                marks.set(ni, epoch);
                proof {
                    dists = dists.update(ni as int, d);
                }
                q.set(tail, n);
                tail = tail + 1;
                proof {
                    assert(q@.subrange(head as int, tail as int) =~= qb.push(n));
                    lemma_bfs_found(s, start, db, dists, qb, q@.subrange(head as int, tail as int), curr, n, level);
                    assert forall|i: int|
                        0 <= i < CELL_COUNT && i != curr.0 && dists[i] != u16::MAX && !q@.subrange(head as int, tail as int).contains(
                            GridPosition(i as usize),
                        ) implies !(#[trigger] GridPosition(i as usize).adjacent(opp)) by {
                        if i == ni {
                            assert(q@.subrange(head as int, tail as int)[qb.len() as int] == n);
                        } else {
                            assert(db[i] != u16::MAX);
                            if qb.contains(GridPosition(i as usize)) {
                                let k = choose|k: int| 0 <= k < qb.len() && qb[k] == GridPosition(i as usize);
                                assert(q@.subrange(head as int, tail as int)[k] == qb[k]);
                            }
                        }
                    }
                    assert forall|i: int| 0 <= i < CELL_COUNT implies (#[trigger] marks@[i] == epoch) == (dists[i] != u16::MAX)
                        && marks@[i] <= epoch by {
                        if i != ni {
                            assert(db[i] == dists[i]);
                        }
                    }
                }
            }
            j = j + 1;
        }
        proof {
            lemma_bfs_expanded(s, start, dists, q@.subrange(head as int, tail as int), curr, ns@, level);
            assert(!curr.adjacent(opp)) by {
                if curr.adjacent(opp) {
                    assert(ns@.contains(opp));
                    let k = choose|k: int| 0 <= k < ns@.len() && ns@[k] == opp;
                }
            }
            assert forall|i: int|
                0 <= i < CELL_COUNT && dists[i] != u16::MAX && !q@.subrange(head as int, tail as int).contains(
                    GridPosition(i as usize),
                ) implies !(#[trigger] GridPosition(i as usize).adjacent(opp)) by {
                if i == curr.0 {
                    assert(GridPosition(i as usize) == curr);
                }
            }
        }
    }
    proof {
        lemma_bfs_done(s, start, dists, q@.subrange(head as int, tail as int));
        if touches(s, start, opp) {
            let x = choose|x: GridPosition| #[trigger] in_region(s, start, x.0 as int) && x.valid() && x.adjacent(opp);
            assert(GridPosition(x.0 as usize) == x);
            assert(dists[x.0 as int] != u16::MAX);
            assert(!q@.subrange(head as int, tail as int).contains(x));
        }
    }
    true
}

/// The epoch after which a search stops rather than start new epochs.
pub const EPOCH_LIMIT: u32 = 4_294_967_290;

impl SearchContext {
    /// The tables are well formed and at least `n` more epochs can start.
    pub open spec fn room(self, n: int) -> bool {
        self.wf() && self.current_epoch + n <= u32::MAX
    }
}

/// Breadth-first search from `start` over the cells that are empty and clear
/// in `board`, writing the shortest distances to `ctx.dist_m` when `is_me`,
/// else to `ctx.dist_o`.
pub fn fast_bfs(grid: &Grid, board: &BitBoard, start: GridPosition, is_me: bool, ctx: &mut SearchContext)
    requires
        grid@.len() == CELL_COUNT,
        start.valid(),
        old(ctx).room(1),
    ensures
        final(ctx).wf(),
        final(ctx).current_epoch == old(ctx).current_epoch + 1,
        final(ctx).art_board == old(ctx).art_board,
        final(ctx).nodes_evaluated == old(ctx).nodes_evaluated,
        is_me ==> final(ctx).dist_o == old(ctx).dist_o,
        !is_me ==> final(ctx).dist_m == old(ctx).dist_m,
        forall|i: int|
            0 <= i < CELL_COUNT ==> (if is_me {
                final(ctx).dist_m@[i]
            } else {
                final(ctx).dist_o@[i]
            }) as int == #[trigger] shortest(open_mask(grid@, board.bits()), start, i),
{
    let epoch = ctx.next_epoch();
    if is_me {
        epoch_bfs(grid, board, start, epoch, &mut ctx.q, &mut ctx.visited_epoch, &mut ctx.dist_m);
    } else {
        epoch_bfs(grid, board, start, epoch, &mut ctx.q, &mut ctx.visited_epoch, &mut ctx.dist_o);
    }
}

/// The number of cells of the region of `start` over the cells that are
/// empty and clear in `board`.
pub fn flood_fill_count(grid: &Grid, board: &BitBoard, start: GridPosition, ctx: &mut SearchContext) -> (r: u16)
    requires
        grid@.len() == CELL_COUNT,
        start.valid(),
        old(ctx).room(1),
    ensures
        final(ctx).wf(),
        final(ctx).current_epoch == old(ctx).current_epoch + 1,
        final(ctx).art_board == old(ctx).art_board,
        final(ctx).nodes_evaluated == old(ctx).nodes_evaluated,
        r == region_size(open_mask(grid@, board.bits()), start),
{
    let epoch = ctx.next_epoch();
    epoch_flood_fill(grid, board, start, epoch, &mut ctx.q, &mut ctx.visited_epoch)
}

/// `false` as soon as an empty cell reachable from `my_pos`, or `my_pos`
/// itself, lies next to `opp_pos`; `true` when none does.
pub fn is_separated(grid: &Grid, my_pos: GridPosition, opp_pos: GridPosition, ctx: &mut SearchContext) -> (r: bool)
    requires
        grid@.len() == CELL_COUNT,
        my_pos.valid(),
        old(ctx).room(1),
    ensures
        final(ctx).wf(),
        final(ctx).current_epoch == old(ctx).current_epoch + 1,
        final(ctx).art_board == old(ctx).art_board,
        final(ctx).nodes_evaluated == old(ctx).nodes_evaluated,
        r == !touches(empty_cells(grid@), my_pos, opp_pos),
{
    let epoch = ctx.next_epoch();
    epoch_separated(grid, my_pos, opp_pos, epoch, &mut ctx.q, &mut ctx.visited_epoch)
}

/// The worth of the cells that `a` reaches before `b`: 100 each, 500 for a
/// cell marked in `art`.
pub open spec fn weighted_closer(a: Seq<int>, b: Seq<int>, art: Seq<bool>) -> int
    decreases a.len(),
{
    if a.len() == 0 {
        0
    } else {
        let i = a.len() - 1;
        weighted_closer(a.drop_last(), b, art) + if a[i] < b[i] && a[i] != u16::MAX {
            if art[i] {
                500int
            } else {
                100int
            }
        } else {
            0int
        }
    }
}

/// The evaluation of a position: the worth of the cells `my` reaches first
/// minus the worth of those `opp` reaches first, one off per step from the
/// middle of the field.
pub open spec fn myr_voronoi(
    s: Seq<GridCell>,
    visited: Seq<bool>,
    art: Seq<bool>,
    my: GridPosition,
    opp: GridPosition,
) -> int {
    let allowed = open_mask(s, visited);
    let m = distance_table(allowed, my);
    let o = distance_table(allowed, opp);
    weighted_closer(m, o, art) - weighted_closer(o, m, art) - my.distance(center())
}

/// The evaluation of a position, `myr_voronoi` with the articulation points
/// marked in `ctx.art_board`.
pub fn evaluate_voronoi(
    grid: &Grid,
    board: &BitBoard,
    my_pos: GridPosition,
    opp_pos: GridPosition,
    ctx: &mut SearchContext,
) -> (r: i32)
    requires
        grid@.len() == CELL_COUNT,
        my_pos.valid(),
        opp_pos.valid(),
        old(ctx).room(2),
    ensures
        final(ctx).wf(),
        final(ctx).current_epoch == old(ctx).current_epoch + 2,
        final(ctx).art_board == old(ctx).art_board,
        final(ctx).nodes_evaluated == old(ctx).nodes_evaluated,
        r == myr_voronoi(grid@, board.bits(), old(ctx).art_board.bits(), my_pos, opp_pos),
        -221000 <= r <= 220500,
{
    let ghost allowed = open_mask(grid@, board.bits());
    let ghost m = distance_table(allowed, my_pos);
    let ghost o = distance_table(allowed, opp_pos);
    let ghost art = ctx.art_board.bits();
    fast_bfs(grid, board, my_pos, true, ctx);
    fast_bfs(grid, board, opp_pos, false, ctx);
    let mut score: i32 = 0;
    let mut i: usize = 0;
    while i < CELL_COUNT
        invariant
            i <= CELL_COUNT,
            ctx.wf(),
            art == ctx.art_board.bits(),
            m.len() == CELL_COUNT,
            o.len() == CELL_COUNT,
            forall|k: int| 0 <= k < CELL_COUNT ==> ctx.dist_m@[k] as int == #[trigger] m[k],
            forall|k: int| 0 <= k < CELL_COUNT ==> ctx.dist_o@[k] as int == #[trigger] o[k],
            score == weighted_closer(m.take(i as int), o, art) - weighted_closer(o.take(i as int), m, art),
            -500 * i <= score <= 500 * i,
        decreases CELL_COUNT - i,
    {
        let d_m = ctx.dist_m[i];
        let d_o = ctx.dist_o[i];
        let mut cell_value: i32 = 100;
        if ctx.art_board.get(i) {
            cell_value = cell_value + 400;
        }
        proof {
            assert(m.take(i + 1).drop_last() =~= m.take(i as int));
            assert(o.take(i + 1).drop_last() =~= o.take(i as int));
            assert(m[i as int] == d_m as int);
            assert(o[i as int] == d_o as int);
        }
        if d_m < d_o && d_m != u16::MAX {
            score = score + cell_value;
        } else if d_o < d_m && d_o != u16::MAX {
            score = score - cell_value;
        }
        i = i + 1;
    }
    proof {
        assert(m.take(CELL_COUNT as int) =~= m);
        assert(o.take(CELL_COUNT as int) =~= o);
    }
    let center = GridPosition::new(GRID_SIZE / 2, GRID_SIZE / 2).unwrap();
    proof {
        assert(center == GridPosition(220));
    }
    score = score - my_pos.manhattan_distance(&center) as i32;
    score
}

/// The milliseconds a move may take.
pub const MYR_BUDGET_MS: u128 = 75;

/// Counts a node of the search, and tells whether the search must stop: on
/// every 256th node the clock is read, and the search stops once its budget
/// is spent; it stops too when the epochs are nearly used up.
fn must_stop(start_time: &Instant, ctx: &mut SearchContext) -> (r: bool)
    requires
        old(ctx).wf(),
    ensures
        final(ctx).wf(),
        *final(ctx) == (SearchContext { nodes_evaluated: final(ctx).nodes_evaluated, ..*old(ctx) }),
        final(ctx).nodes_evaluated == if old(ctx).nodes_evaluated == u32::MAX {
            0
        } else {
            old(ctx).nodes_evaluated + 1
        },
        old(ctx).current_epoch >= EPOCH_LIMIT ==> r,
        final(ctx).nodes_evaluated % 256 != 0 && old(ctx).current_epoch < EPOCH_LIMIT ==> !r,
        !r ==> final(ctx).current_epoch < EPOCH_LIMIT,
{
    ctx.nodes_evaluated = ctx.nodes_evaluated.wrapping_add(1);
    let n = ctx.nodes_evaluated;
    proof {
        assert(n & 255 == n % 256) by (bit_vector);
    }
    if ctx.nodes_evaluated & 255 == 0 && !within_budget(start_time, MYR_BUDGET_MS) {
        return true;
    }
    ctx.current_epoch >= EPOCH_LIMIT
}

/// An upper bound on the nodes that a search of `depth` more plies counts:
/// the node itself and at most four searches one ply shallower.
pub open spec fn myr_node_bound(depth: nat) -> int
    decreases depth,
{
    if depth == 0 {
        1
    } else {
        1 + 4 * myr_node_bound((depth - 1) as nat)
    }
}

/// A search of `depth` more plies, started with the node count `nodes` at
/// epoch `epoch`, reaches no 256th node, so reads no clock, and meets no
/// epoch limit: it cannot be stopped.
pub open spec fn myr_search_fits(nodes: u32, epoch: u32, depth: nat) -> bool {
    &&& nodes % 256 + myr_node_bound(depth) < 256
    &&& epoch + 2 * myr_node_bound(depth) < EPOCH_LIMIT
}

proof fn lemma_node_bound(depth: nat)
    ensures
        myr_node_bound(depth) >= 1,
        depth > 0 ==> myr_node_bound(depth) == 1 + 4 * myr_node_bound((depth - 1) as nat),
    decreases depth,
{
    if depth > 0 {
        lemma_node_bound((depth - 1) as nat);
    }
}

/// The node bounds of searches one to three plies deep.
pub proof fn lemma_node_bound_small()
    ensures
        myr_node_bound(1) == 5,
        myr_node_bound(2) == 21,
        myr_node_bound(3) == 85,
{
    assert(myr_node_bound(0) == 1);
    assert(myr_node_bound(1) == 5);
    assert(myr_node_bound(2) == 21);
    assert(myr_node_bound(3) == 85);
}

proof fn lemma_mod256_shift(n: int, m: int)
    requires
        0 <= n,
        0 <= m,
        n % 256 + m < 256,
    ensures
        (n + m) % 256 == n % 256 + m,
{
    assert((n + m) % 256 == n % 256 + m) by (nonlinear_arith)
        requires
            0 <= n,
            0 <= m,
            n % 256 + m < 256,
    ;
}

/// Counting the node of a search that fits its budget steps the count by one
/// and keeps it off a multiple of 256.
proof fn lemma_count_step(n0: u32, n1: u32, bound: int)
    requires
        bound >= 1,
        n0 % 256 + bound < 256,
        n1 == if n0 == u32::MAX {
            0
        } else {
            n0 + 1
        },
    ensures
        n1 == n0 + 1,
        n1 % 256 != 0,
{
    assert(u32::MAX % 256 == 255);
    lemma_mod256_shift(n0 as int, 1);
}

proof fn lemma_mul_step(k: int, nc: int)
    requires
        0 <= k,
        0 <= nc,
    ensures
        (k + 1) * nc == k * nc + nc,
        0 <= k * nc,
        k <= 3 ==> k * nc <= 3 * nc,
        k <= 4 ==> k * nc <= 4 * nc,
{
    assert((k + 1) * nc == k * nc + nc) by (nonlinear_arith);
    assert(0 <= k * nc) by (nonlinear_arith)
        requires
            0 <= k,
            0 <= nc,
    ;
    assert(k <= 3 ==> k * nc <= 3 * nc) by (nonlinear_arith)
        requires
            0 <= k,
            0 <= nc,
    ;
    assert(k <= 4 ==> k * nc <= 4 * nc) by (nonlinear_arith)
        requires
            0 <= k,
            0 <= nc,
    ;
}

/// Before the child search of index `k < 4` of a node whose count fits,
/// the child's count fits too.
proof fn lemma_child_nodes(n0: u32, depth: nat, k: int, cn: u32)
    requires
        depth > 0,
        0 <= k < 4,
        n0 % 256 + myr_node_bound(depth) < 256,
        n0 <= cn <= n0 + 1 + k * myr_node_bound((depth - 1) as nat),
    ensures
        cn % 256 + myr_node_bound((depth - 1) as nat) < 256,
{
    let nc = myr_node_bound((depth - 1) as nat);
    lemma_node_bound(depth);
    lemma_node_bound((depth - 1) as nat);
    lemma_mul_step(k, nc);
    lemma_mod256_shift(n0 as int, cn - n0);
}

proof fn lemma_bits_set(b0: Seq<bool>, b: BitBoard, i: int)
    requires
        0 <= i < CELL_COUNT,
        b0.len() == CELL_COUNT,
        forall|j: int| 0 <= j < CELL_COUNT ==> #[trigger] b.bit(j) == if j == i {
            true
        } else {
            b0[j]
        },
    ensures
        b.bits() == b0.update(i, true),
{
    assert(b.bits() =~= b0.update(i, true));
}

proof fn lemma_bits_clear(b0: Seq<bool>, b: BitBoard, i: int)
    requires
        0 <= i < CELL_COUNT,
        b0.len() == CELL_COUNT,
        !b0[i],
        forall|j: int| 0 <= j < CELL_COUNT ==> #[trigger] b.bit(j) == if j == i {
            false
        } else {
            b0.update(i, true)[j]
        },
    ensures
        b.bits() == b0,
{
    assert(b.bits() =~= b0);
}

/// Searches the lines of play of a player alone in its region, like
/// `survival_search`, but stops when `must_stop` says so and sets `abort`.
/// Where the search was not stopped, the result is `survival_value`.
pub fn survival_search(
    grid: &Grid,
    pos: GridPosition,
    board: &mut BitBoard,
    depth: u16,
    max_depth: u16,
    start_time: &Instant,
    abort: &mut bool,
    ctx: &mut SearchContext,
) -> (r: i32)
    requires
        grid@.len() == CELL_COUNT,
        pos.valid(),
        depth <= max_depth,
        old(ctx).wf(),
    ensures
        final(ctx).wf(),
        final(ctx).art_board == old(ctx).art_board,
        final(board).bits() == old(board).bits(),
        *old(abort) ==> *final(abort),
        !*final(abort) ==> r == survival_value(grid@, old(board).bits(), pos, depth as nat, max_depth as nat),
        old(ctx).current_epoch >= EPOCH_LIMIT ==> *final(abort) && r == 0,
        old(ctx).current_epoch <= final(ctx).current_epoch,
        final(ctx).current_epoch <= old(ctx).current_epoch + 2 * myr_node_bound((max_depth - depth) as nat),
        old(ctx).nodes_evaluated % 256 + myr_node_bound((max_depth - depth) as nat) < 256
            ==> old(ctx).nodes_evaluated < final(ctx).nodes_evaluated <= old(ctx).nodes_evaluated
            + myr_node_bound((max_depth - depth) as nat),
        !*old(abort) && myr_search_fits(
            old(ctx).nodes_evaluated,
            old(ctx).current_epoch,
            (max_depth - depth) as nat,
        ) ==> !*final(abort),
    decreases max_depth - depth,
{
    let ghost plies = (max_depth - depth) as nat;
    let ghost n0 = ctx.nodes_evaluated;
    let ghost e0 = ctx.current_epoch;
    let ghost h = n0 % 256 + myr_node_bound(plies) < 256;
    let ghost fits = myr_search_fits(n0, e0, plies);
    proof {
        lemma_node_bound(plies);
    }
    let stop = must_stop(start_time, ctx);
    proof {
        if h {
            lemma_count_step(n0, ctx.nodes_evaluated, myr_node_bound(plies));
        }
    }
    if stop {
        *abort = true;
        return 0;
    }
    if depth == max_depth {
        let n = flood_fill_count(grid, board, pos, ctx);
        return depth as i32 * 1000 + n as i32;
    }
    let ghost b0 = board.bits();
    let ghost abort0 = *abort;
    let ghost nc = myr_node_bound((plies - 1) as nat);
    proof {
        lemma_node_bound((plies - 1) as nat);
        assert((plies - 1) as nat == (max_depth - (depth + 1)) as nat);
    }
    let dirs = Direction::all();
    let mut best_val: i32 = -1;
    let mut k: usize = 0;
    while k < 4
        invariant
            grid@.len() == CELL_COUNT,
            pos.valid(),
            depth < max_depth,
            board.bits() == b0,
            b0 == old(board).bits(),
            b0.len() == CELL_COUNT,
            abort0 == *old(abort),
            abort0 ==> *abort,
            ctx.wf(),
            ctx.art_board == old(ctx).art_board,
            dirs@ == counterclockwise(),
            k <= 4,
            plies == (max_depth - depth) as nat,
            plies > 0,
            n0 == old(ctx).nodes_evaluated,
            e0 == old(ctx).current_epoch,
            e0 < EPOCH_LIMIT,
            h == (n0 % 256 + myr_node_bound(plies) < 256),
            fits == myr_search_fits(n0, e0, plies),
            nc == myr_node_bound((plies - 1) as nat),
            nc == myr_node_bound((max_depth - (depth + 1)) as nat),
            nc >= 1,
            myr_node_bound(plies) == 1 + 4 * nc,
            e0 <= ctx.current_epoch <= e0 + 2 * (k * nc),
            h ==> n0 + 1 <= ctx.nodes_evaluated <= n0 + 1 + k * nc,
            fits && !abort0 ==> !*abort,
            !*abort ==> survival_best(grid@, b0, pos, depth as nat, max_depth as nat, k as nat, best_val as int)
                == survival_best(grid@, b0, pos, depth as nat, max_depth as nat, 0, -1),
        decreases 4 - k,
    {
        proof {
            lemma_mul_step(k as int, nc);
        }
        match pos.after_moved(dirs[k]) {
            Some(next_pos) => {
                if next_pos.is_empty(grid) && !board.get(next_pos.i()) {
                    let ghost bb = board.bits();
                    board.set(next_pos.i());
                    proof {
                        lemma_bits_set(b0, *board, next_pos.0 as int);
                        if h {
                            lemma_child_nodes(n0, plies, k as int, ctx.nodes_evaluated);
                        }
                    }
                    let val = survival_search(grid, next_pos, board, depth + 1, max_depth, start_time, abort, ctx);
                    proof {
                        lemma_mul_step(k as int + 1, nc);
                    }
                    board.clear(next_pos.i());
                    proof {
                        lemma_bits_clear(b0, *board, next_pos.0 as int);
                    }
                    if val > best_val {
                        best_val = val;
                    }
                }
            },
            None => {},
        }
        k = k + 1;
    }
    proof {
        lemma_mul_step(k as int, nc);
    }
    if best_val == -1 {
        return depth as i32 * 1000;
    }
    best_val
}

/// The value of a position by depth-limited alpha-beta search, as
/// `ab_value` but evaluating with `myr_voronoi` and scoring a stuck player
/// by `40 - depth`.
pub open spec fn myr_ab_value(
    s: Seq<GridCell>,
    visited: Seq<bool>,
    art: Seq<bool>,
    my: GridPosition,
    opp: GridPosition,
    depth: nat,
    alpha: int,
    beta: int,
    maxing: bool,
) -> int
    decreases depth, 5int,
{
    if my == opp {
        DRAW_EVAL as int
    } else if depth == 0 {
        myr_voronoi(s, visited, art, my, opp)
    } else if maxing {
        myr_ab_max(s, visited, art, my, opp, depth, alpha, beta, 0, MIN_EVAL as int, false)
    } else {
        myr_ab_min(s, visited, art, my, opp, depth, alpha, beta, 0, MAX_EVAL as int, false)
    }
}

/// The maximizing scan of `myr_ab_value` from the `k`-th direction on.
pub open spec fn myr_ab_max(
    s: Seq<GridCell>,
    visited: Seq<bool>,
    art: Seq<bool>,
    my: GridPosition,
    opp: GridPosition,
    depth: nat,
    alpha: int,
    beta: int,
    k: nat,
    best: int,
    moved: bool,
) -> int
    decreases depth, 4 - k,
{
    if k >= 4 || depth == 0 {
        if moved {
            best
        } else {
            MIN_EVAL + (40 - depth)
        }
    } else {
        match my.moved(counterclockwise()[k as int]) {
            Some(n) => if !occupied(s, n) && !visited[n.0 as int] {
                let e = myr_ab_value(s, visited.update(n.0 as int, true), art, n, opp, (depth - 1) as nat, alpha, beta, false);
                let b2 = if e > best {
                    e
                } else {
                    best
                };
                let a2 = if e > alpha {
                    e
                } else {
                    alpha
                };
                if beta <= a2 {
                    b2
                } else {
                    myr_ab_max(s, visited, art, my, opp, depth, a2, beta, k + 1, b2, true)
                }
            } else if n == opp {
                let b2 = if 0 > best {
                    0
                } else {
                    best
                };
                let a2 = if 0 > alpha {
                    0
                } else {
                    alpha
                };
                if beta <= a2 {
                    b2
                } else {
                    myr_ab_max(s, visited, art, my, opp, depth, a2, beta, k + 1, b2, true)
                }
            } else {
                myr_ab_max(s, visited, art, my, opp, depth, alpha, beta, k + 1, best, moved)
            },
            None => myr_ab_max(s, visited, art, my, opp, depth, alpha, beta, k + 1, best, moved),
        }
    }
}

/// The minimizing scan of `myr_ab_value` from the `k`-th direction on.
pub open spec fn myr_ab_min(
    s: Seq<GridCell>,
    visited: Seq<bool>,
    art: Seq<bool>,
    my: GridPosition,
    opp: GridPosition,
    depth: nat,
    alpha: int,
    beta: int,
    k: nat,
    best: int,
    moved: bool,
) -> int
    decreases depth, 4 - k,
{
    if k >= 4 || depth == 0 {
        if moved {
            best
        } else {
            MAX_EVAL - (40 - depth)
        }
    } else {
        match opp.moved(counterclockwise()[k as int]) {
            Some(n) => if !occupied(s, n) && !visited[n.0 as int] {
                let e = myr_ab_value(s, visited.update(n.0 as int, true), art, my, n, (depth - 1) as nat, alpha, beta, true);
                let b2 = if e < best {
                    e
                } else {
                    best
                };
                let c2 = if e < beta {
                    e
                } else {
                    beta
                };
                if c2 <= alpha {
                    b2
                } else {
                    myr_ab_min(s, visited, art, my, opp, depth, alpha, c2, k + 1, b2, true)
                }
            } else if n == my {
                let b2 = if 0 < best {
                    0
                } else {
                    best
                };
                let c2 = if 0 < beta {
                    0
                } else {
                    beta
                };
                if c2 <= alpha {
                    b2
                } else {
                    myr_ab_min(s, visited, art, my, opp, depth, alpha, c2, k + 1, b2, true)
                }
            } else {
                myr_ab_min(s, visited, art, my, opp, depth, alpha, beta, k + 1, best, moved)
            },
            None => myr_ab_min(s, visited, art, my, opp, depth, alpha, beta, k + 1, best, moved),
        }
    }
}

/// The value of a position by plain minimax search, `depth` moves deep:
/// what `myr_ab_value` computes without cutting any line of play short.
pub open spec fn myr_mm_value(
    s: Seq<GridCell>,
    visited: Seq<bool>,
    art: Seq<bool>,
    my: GridPosition,
    opp: GridPosition,
    depth: nat,
    maxing: bool,
) -> int
    decreases depth, 5int,
{
    if my == opp {
        DRAW_EVAL as int
    } else if depth == 0 {
        myr_voronoi(s, visited, art, my, opp)
    } else if maxing {
        myr_mm_max(s, visited, art, my, opp, depth, 0, MIN_EVAL as int, false)
    } else {
        myr_mm_min(s, visited, art, my, opp, depth, 0, MAX_EVAL as int, false)
    }
}

/// The best value for `my` over its moves from the `k`-th direction on.
pub open spec fn myr_mm_max(
    s: Seq<GridCell>,
    visited: Seq<bool>,
    art: Seq<bool>,
    my: GridPosition,
    opp: GridPosition,
    depth: nat,
    k: nat,
    best: int,
    moved: bool,
) -> int
    decreases depth, 4 - k,
{
    if k >= 4 || depth == 0 {
        if moved {
            best
        } else {
            MIN_EVAL + (40 - depth)
        }
    } else {
        match my.moved(counterclockwise()[k as int]) {
            Some(n) => if !occupied(s, n) && !visited[n.0 as int] {
                let e = myr_mm_value(s, visited.update(n.0 as int, true), art, n, opp, (depth - 1) as nat, false);
                myr_mm_max(s, visited, art, my, opp, depth, k + 1, if e > best {
                    e
                } else {
                    best
                }, true)
            } else if n == opp {
                myr_mm_max(s, visited, art, my, opp, depth, k + 1, if 0 > best {
                    0
                } else {
                    best
                }, true)
            } else {
                myr_mm_max(s, visited, art, my, opp, depth, k + 1, best, moved)
            },
            None => myr_mm_max(s, visited, art, my, opp, depth, k + 1, best, moved),
        }
    }
}

/// The best value for `opp` (the lowest) over its moves from the `k`-th
/// direction on.
pub open spec fn myr_mm_min(
    s: Seq<GridCell>,
    visited: Seq<bool>,
    art: Seq<bool>,
    my: GridPosition,
    opp: GridPosition,
    depth: nat,
    k: nat,
    best: int,
    moved: bool,
) -> int
    decreases depth, 4 - k,
{
    if k >= 4 || depth == 0 {
        if moved {
            best
        } else {
            MAX_EVAL - (40 - depth)
        }
    } else {
        match opp.moved(counterclockwise()[k as int]) {
            Some(n) => if !occupied(s, n) && !visited[n.0 as int] {
                let e = myr_mm_value(s, visited.update(n.0 as int, true), art, my, n, (depth - 1) as nat, true);
                myr_mm_min(s, visited, art, my, opp, depth, k + 1, if e < best {
                    e
                } else {
                    best
                }, true)
            } else if n == my {
                myr_mm_min(s, visited, art, my, opp, depth, k + 1, if 0 < best {
                    0
                } else {
                    best
                }, true)
            } else {
                myr_mm_min(s, visited, art, my, opp, depth, k + 1, best, moved)
            },
            None => myr_mm_min(s, visited, art, my, opp, depth, k + 1, best, moved),
        }
    }
}

/// A scan that has moved keeps at least its best so far.
proof fn myr_lemma_mm_max_keeps_best(
    s: Seq<GridCell>,
    visited: Seq<bool>,
    art: Seq<bool>,
    my: GridPosition,
    opp: GridPosition,
    depth: nat,
    k: nat,
    best: int,
)
    ensures
        myr_mm_max(s, visited, art, my, opp, depth, k, best, true) >= best,
    decreases 4 - k,
{
    if k < 4 && depth != 0 {
        match my.moved(counterclockwise()[k as int]) {
            Some(n) => if !occupied(s, n) && !visited[n.0 as int] {
                let e = myr_mm_value(s, visited.update(n.0 as int, true), art, n, opp, (depth - 1) as nat, false);
                myr_lemma_mm_max_keeps_best(s, visited, art, my, opp, depth, k + 1, if e > best {
                    e
                } else {
                    best
                });
            } else if n == opp {
                myr_lemma_mm_max_keeps_best(s, visited, art, my, opp, depth, k + 1, if 0 > best {
                    0
                } else {
                    best
                });
            } else {
                myr_lemma_mm_max_keeps_best(s, visited, art, my, opp, depth, k + 1, best);
            },
            None => myr_lemma_mm_max_keeps_best(s, visited, art, my, opp, depth, k + 1, best),
        }
    }
}

/// A scan that has moved keeps at most its best so far.
proof fn myr_lemma_mm_min_keeps_best(
    s: Seq<GridCell>,
    visited: Seq<bool>,
    art: Seq<bool>,
    my: GridPosition,
    opp: GridPosition,
    depth: nat,
    k: nat,
    best: int,
)
    ensures
        myr_mm_min(s, visited, art, my, opp, depth, k, best, true) <= best,
    decreases 4 - k,
{
    if k < 4 && depth != 0 {
        match opp.moved(counterclockwise()[k as int]) {
            Some(n) => if !occupied(s, n) && !visited[n.0 as int] {
                let e = myr_mm_value(s, visited.update(n.0 as int, true), art, my, n, (depth - 1) as nat, true);
                myr_lemma_mm_min_keeps_best(s, visited, art, my, opp, depth, k + 1, if e < best {
                    e
                } else {
                    best
                });
            } else if n == my {
                myr_lemma_mm_min_keeps_best(s, visited, art, my, opp, depth, k + 1, if 0 < best {
                    0
                } else {
                    best
                });
            } else {
                myr_lemma_mm_min_keeps_best(s, visited, art, my, opp, depth, k + 1, best);
            },
            None => myr_lemma_mm_min_keeps_best(s, visited, art, my, opp, depth, k + 1, best),
        }
    }
}

/// Alpha-beta search gives the minimax value of a position whenever its
/// result lies strictly inside the window; a result at or below the window
/// bounds the minimax value from above, one at or above it bounds it from
/// below. The window lies within the range of evaluations.
pub proof fn myr_lemma_alpha_beta(
    s: Seq<GridCell>,
    visited: Seq<bool>,
    art: Seq<bool>,
    my: GridPosition,
    opp: GridPosition,
    depth: nat,
    alpha: int,
    beta: int,
    maxing: bool,
)
    requires
        MIN_EVAL <= alpha < beta <= MAX_EVAL,
    ensures
        alpha < myr_ab_value(s, visited, art, my, opp, depth, alpha, beta, maxing) < beta ==> myr_ab_value(
            s,
            visited,
            art,
            my,
            opp,
            depth,
            alpha,
            beta,
            maxing,
        ) == myr_mm_value(s, visited, art, my, opp, depth, maxing),
        myr_ab_value(s, visited, art, my, opp, depth, alpha, beta, maxing) <= alpha ==> myr_mm_value(
            s,
            visited,
            art,
            my,
            opp,
            depth,
            maxing,
        ) <= myr_ab_value(s, visited, art, my, opp, depth, alpha, beta, maxing),
        myr_ab_value(s, visited, art, my, opp, depth, alpha, beta, maxing) >= beta ==> myr_mm_value(
            s,
            visited,
            art,
            my,
            opp,
            depth,
            maxing,
        ) >= myr_ab_value(s, visited, art, my, opp, depth, alpha, beta, maxing),
    decreases depth, 5int,
{
    if my == opp || depth == 0 {
    } else if maxing {
        myr_lemma_ab_max_scan(s, visited, art, my, opp, depth, alpha, alpha, beta, 0, MIN_EVAL as int, MIN_EVAL as int, false);
    } else {
        myr_lemma_ab_min_scan(s, visited, art, my, opp, depth, alpha, beta, beta, 0, MAX_EVAL as int, MAX_EVAL as int, false);
    }
}

/// The maximizing scan of alpha-beta search against the one of minimax
/// search, from the `k`-th direction on: `a` is the raised lower end of the
/// window `lo`..`beta`, `b` and `b2` the best values so far of the two.
proof fn myr_lemma_ab_max_scan(
    s: Seq<GridCell>,
    visited: Seq<bool>,
    art: Seq<bool>,
    my: GridPosition,
    opp: GridPosition,
    depth: nat,
    lo: int,
    a: int,
    beta: int,
    k: nat,
    b: int,
    b2: int,
    moved: bool,
)
    requires
        MIN_EVAL <= lo <= a < beta <= MAX_EVAL,
        a == if lo > b {
            lo
        } else {
            b
        },
        b2 <= b,
        b2 == b || b <= lo,
        !moved ==> b == MIN_EVAL && b2 == MIN_EVAL,
    ensures
        lo < myr_ab_max(s, visited, art, my, opp, depth, a, beta, k, b, moved) < beta ==> myr_ab_max(
            s,
            visited,
            art,
            my,
            opp,
            depth,
            a,
            beta,
            k,
            b,
            moved,
        ) == myr_mm_max(s, visited, art, my, opp, depth, k, b2, moved),
        myr_ab_max(s, visited, art, my, opp, depth, a, beta, k, b, moved) <= lo ==> myr_mm_max(s, visited, art, my, opp, depth, k, b2, moved)
            <= myr_ab_max(s, visited, art, my, opp, depth, a, beta, k, b, moved),
        myr_ab_max(s, visited, art, my, opp, depth, a, beta, k, b, moved) >= beta ==> myr_mm_max(s, visited, art, my, opp, depth, k, b2, moved)
            >= myr_ab_max(s, visited, art, my, opp, depth, a, beta, k, b, moved),
    decreases depth, 4 - k,
{
    if k >= 4 || depth == 0 {
    } else {
        match my.moved(counterclockwise()[k as int]) {
            Some(n) => if !occupied(s, n) && !visited[n.0 as int] {
                let v2 = visited.update(n.0 as int, true);
                let e = myr_ab_value(s, v2, art, n, opp, (depth - 1) as nat, a, beta, false);
                let m = myr_mm_value(s, v2, art, n, opp, (depth - 1) as nat, false);
                myr_lemma_alpha_beta(s, v2, art, n, opp, (depth - 1) as nat, a, beta, false);
                let nb = if e > b {
                    e
                } else {
                    b
                };
                let na = if e > a {
                    e
                } else {
                    a
                };
                let nb2 = if m > b2 {
                    m
                } else {
                    b2
                };
                if beta <= na {
                    myr_lemma_mm_max_keeps_best(s, visited, art, my, opp, depth, k + 1, nb2);
                } else {
                    myr_lemma_ab_max_scan(s, visited, art, my, opp, depth, lo, na, beta, k + 1, nb, nb2, true);
                }
            } else if n == opp {
                let nb = if 0 > b {
                    0
                } else {
                    b
                };
                let na = if 0 > a {
                    0
                } else {
                    a
                };
                let nb2 = if 0 > b2 {
                    0
                } else {
                    b2
                };
                if beta <= na {
                    myr_lemma_mm_max_keeps_best(s, visited, art, my, opp, depth, k + 1, nb2);
                } else {
                    myr_lemma_ab_max_scan(s, visited, art, my, opp, depth, lo, na, beta, k + 1, nb, nb2, true);
                }
            } else {
                myr_lemma_ab_max_scan(s, visited, art, my, opp, depth, lo, a, beta, k + 1, b, b2, moved);
            },
            None => myr_lemma_ab_max_scan(s, visited, art, my, opp, depth, lo, a, beta, k + 1, b, b2, moved),
        }
    }
}

/// The minimizing scan of alpha-beta search against the one of minimax
/// search, from the `k`-th direction on: `c` is the lowered upper end of the
/// window `alpha`..`hi`, `b` and `b2` the best values so far of the two.
proof fn myr_lemma_ab_min_scan(
    s: Seq<GridCell>,
    visited: Seq<bool>,
    art: Seq<bool>,
    my: GridPosition,
    opp: GridPosition,
    depth: nat,
    alpha: int,
    c: int,
    hi: int,
    k: nat,
    b: int,
    b2: int,
    moved: bool,
)
    requires
        MIN_EVAL <= alpha < c <= hi <= MAX_EVAL,
        c == if hi < b {
            hi
        } else {
            b
        },
        b2 >= b,
        b2 == b || b >= hi,
        !moved ==> b == MAX_EVAL && b2 == MAX_EVAL,
    ensures
        alpha < myr_ab_min(s, visited, art, my, opp, depth, alpha, c, k, b, moved) < hi ==> myr_ab_min(
            s,
            visited,
            art,
            my,
            opp,
            depth,
            alpha,
            c,
            k,
            b,
            moved,
        ) == myr_mm_min(s, visited, art, my, opp, depth, k, b2, moved),
        myr_ab_min(s, visited, art, my, opp, depth, alpha, c, k, b, moved) <= alpha ==> myr_mm_min(s, visited, art, my, opp, depth, k, b2, moved)
            <= myr_ab_min(s, visited, art, my, opp, depth, alpha, c, k, b, moved),
        myr_ab_min(s, visited, art, my, opp, depth, alpha, c, k, b, moved) >= hi ==> myr_mm_min(s, visited, art, my, opp, depth, k, b2, moved)
            >= myr_ab_min(s, visited, art, my, opp, depth, alpha, c, k, b, moved),
    decreases depth, 4 - k,
{
    if k >= 4 || depth == 0 {
    } else {
        match opp.moved(counterclockwise()[k as int]) {
            Some(n) => if !occupied(s, n) && !visited[n.0 as int] {
                let v2 = visited.update(n.0 as int, true);
                let e = myr_ab_value(s, v2, art, my, n, (depth - 1) as nat, alpha, c, true);
                let m = myr_mm_value(s, v2, art, my, n, (depth - 1) as nat, true);
                myr_lemma_alpha_beta(s, v2, art, my, n, (depth - 1) as nat, alpha, c, true);
                let nb = if e < b {
                    e
                } else {
                    b
                };
                let nc = if e < c {
                    e
                } else {
                    c
                };
                let nb2 = if m < b2 {
                    m
                } else {
                    b2
                };
                if nc <= alpha {
                    myr_lemma_mm_min_keeps_best(s, visited, art, my, opp, depth, k + 1, nb2);
                } else {
                    myr_lemma_ab_min_scan(s, visited, art, my, opp, depth, alpha, nc, hi, k + 1, nb, nb2, true);
                }
            } else if n == my {
                let nb = if 0 < b {
                    0
                } else {
                    b
                };
                let nc = if 0 < c {
                    0
                } else {
                    c
                };
                let nb2 = if 0 < b2 {
                    0
                } else {
                    b2
                };
                if nc <= alpha {
                    myr_lemma_mm_min_keeps_best(s, visited, art, my, opp, depth, k + 1, nb2);
                } else {
                    myr_lemma_ab_min_scan(s, visited, art, my, opp, depth, alpha, nc, hi, k + 1, nb, nb2, true);
                }
            } else {
                myr_lemma_ab_min_scan(s, visited, art, my, opp, depth, alpha, c, hi, k + 1, b, b2, moved);
            },
            None => myr_lemma_ab_min_scan(s, visited, art, my, opp, depth, alpha, c, hi, k + 1, b, b2, moved),
        }
    }
}

/// Alpha-beta search as in `minimax` of the other bot, with the evaluation
/// `myr_voronoi`; stops when `must_stop` says so and sets `abort`. Where the
/// search was not stopped, the result is `myr_ab_value`.
pub fn minimax(
    grid: &Grid,
    my_pos: GridPosition,
    opp_pos: GridPosition,
    board: &mut BitBoard,
    depth: u8,
    alpha: i32,
    beta: i32,
    is_maximizing: bool,
    start_time: &Instant,
    abort: &mut bool,
    ctx: &mut SearchContext,
) -> (r: i32)
    requires
        grid@.len() == CELL_COUNT,
        my_pos.valid(),
        opp_pos.valid(),
        old(ctx).wf(),
    ensures
        final(ctx).wf(),
        final(ctx).art_board == old(ctx).art_board,
        final(board).bits() == old(board).bits(),
        *old(abort) ==> *final(abort),
        !*final(abort) ==> r == myr_ab_value(
            grid@,
            old(board).bits(),
            old(ctx).art_board.bits(),
            my_pos,
            opp_pos,
            depth as nat,
            alpha as int,
            beta as int,
            is_maximizing,
        ),
        old(ctx).current_epoch >= EPOCH_LIMIT ==> *final(abort) && r == 0,
        old(ctx).current_epoch <= final(ctx).current_epoch,
        final(ctx).current_epoch <= old(ctx).current_epoch + 2 * myr_node_bound(depth as nat),
        old(ctx).nodes_evaluated % 256 + myr_node_bound(depth as nat) < 256 ==> old(ctx).nodes_evaluated
            < final(ctx).nodes_evaluated <= old(ctx).nodes_evaluated + myr_node_bound(depth as nat),
        !*old(abort) && myr_search_fits(old(ctx).nodes_evaluated, old(ctx).current_epoch, depth as nat)
            ==> !*final(abort),
        depth <= 40 ==> MIN_EVAL <= r <= MAX_EVAL,
    decreases depth,
{
    let ghost n0 = ctx.nodes_evaluated;
    let ghost e0 = ctx.current_epoch;
    let ghost h = n0 % 256 + myr_node_bound(depth as nat) < 256;
    let ghost fits = myr_search_fits(n0, e0, depth as nat);
    proof {
        lemma_node_bound(depth as nat);
    }
    let stop = must_stop(start_time, ctx);
    proof {
        if h {
            lemma_count_step(n0, ctx.nodes_evaluated, myr_node_bound(depth as nat));
        }
    }
    if stop {
        *abort = true;
        return 0;
    }
    if my_pos == opp_pos {
        return DRAW_EVAL;
    }
    if depth == 0 {
        return evaluate_voronoi(grid, board, my_pos, opp_pos, ctx);
    }
    let ghost b0 = board.bits();
    let ghost abort0 = *abort;
    let ghost art = ctx.art_board.bits();
    let ghost s = grid@;
    let ghost nc = myr_node_bound((depth - 1) as nat);
    proof {
        lemma_node_bound((depth - 1) as nat);
    }
    let dirs = Direction::all();
    let mut a = alpha;
    let mut b = beta;
    if is_maximizing {
        let mut max_eval = MIN_EVAL;
        let mut can_move = false;
        let mut k: usize = 0;
        while k < 4
            invariant
                s == grid@,
                grid@.len() == CELL_COUNT,
                my_pos.valid(),
                opp_pos.valid(),
                my_pos != opp_pos,
                depth > 0,
                is_maximizing,
                board.bits() == b0,
                b0 == old(board).bits(),
                b0.len() == CELL_COUNT,
                abort0 == *old(abort),
                abort0 ==> *abort,
                ctx.wf(),
                ctx.art_board == old(ctx).art_board,
                art == old(ctx).art_board.bits(),
                dirs@ == counterclockwise(),
                k <= 4,
                n0 == old(ctx).nodes_evaluated,
                e0 == old(ctx).current_epoch,
                e0 < EPOCH_LIMIT,
                h == (n0 % 256 + myr_node_bound(depth as nat) < 256),
                fits == myr_search_fits(n0, e0, depth as nat),
                nc == myr_node_bound((depth - 1) as nat),
                nc >= 1,
                myr_node_bound(depth as nat) == 1 + 4 * nc,
                e0 <= ctx.current_epoch <= e0 + 2 * (k * nc),
                h ==> n0 + 1 <= ctx.nodes_evaluated <= n0 + 1 + k * nc,
                fits && !abort0 ==> !*abort,
                depth <= 40 ==> MIN_EVAL <= max_eval <= MAX_EVAL,
                !*abort ==> myr_ab_max(s, b0, art, my_pos, opp_pos, depth as nat, a as int, b as int, k as nat, max_eval as int, can_move)
                    == myr_ab_value(s, b0, art, my_pos, opp_pos, depth as nat, alpha as int, beta as int, true),
            decreases 4 - k,
        {
            proof {
                lemma_mul_step(k as int, nc);
            }
            match my_pos.after_moved(dirs[k]) {
                Some(next_pos) => {
                    if next_pos.is_empty(grid) && !board.get(next_pos.i()) {
                        can_move = true;
                        board.set(next_pos.i());
                        proof {
                            lemma_bits_set(b0, *board, next_pos.0 as int);
                            if h {
                                lemma_child_nodes(n0, depth as nat, k as int, ctx.nodes_evaluated);
                            }
                        }
                        let eval = minimax(grid, next_pos, opp_pos, board, depth - 1, a, b, false, start_time, abort, ctx);
                        proof {
                            lemma_mul_step(k as int + 1, nc);
                        }
                        board.clear(next_pos.i());
                        proof {
                            lemma_bits_clear(b0, *board, next_pos.0 as int);
                        }
                        if eval > max_eval {
                            max_eval = eval;
                        }
                        if eval > a {
                            a = eval;
                        }
                        if b <= a {
                            return max_eval;
                        }
                    } else if next_pos == opp_pos {
                        can_move = true;
                        if DRAW_EVAL > max_eval {
                            max_eval = DRAW_EVAL;
                        }
                        if DRAW_EVAL > a {
                            a = DRAW_EVAL;
                        }
                        if b <= a {
                            return max_eval;
                        }
                    }
                },
                None => {},
            }
            k = k + 1;
        }
        proof {
            lemma_mul_step(k as int, nc);
        }
        if !can_move {
            return MIN_EVAL + (40 - depth as i32);
        }
        max_eval
    } else {
        let mut min_eval = MAX_EVAL;
        let mut can_move = false;
        let mut k: usize = 0;
        while k < 4
            invariant
                s == grid@,
                grid@.len() == CELL_COUNT,
                my_pos.valid(),
                opp_pos.valid(),
                my_pos != opp_pos,
                depth > 0,
                !is_maximizing,
                board.bits() == b0,
                b0 == old(board).bits(),
                b0.len() == CELL_COUNT,
                abort0 == *old(abort),
                abort0 ==> *abort,
                ctx.wf(),
                ctx.art_board == old(ctx).art_board,
                art == old(ctx).art_board.bits(),
                dirs@ == counterclockwise(),
                k <= 4,
                n0 == old(ctx).nodes_evaluated,
                e0 == old(ctx).current_epoch,
                e0 < EPOCH_LIMIT,
                h == (n0 % 256 + myr_node_bound(depth as nat) < 256),
                fits == myr_search_fits(n0, e0, depth as nat),
                nc == myr_node_bound((depth - 1) as nat),
                nc >= 1,
                myr_node_bound(depth as nat) == 1 + 4 * nc,
                e0 <= ctx.current_epoch <= e0 + 2 * (k * nc),
                h ==> n0 + 1 <= ctx.nodes_evaluated <= n0 + 1 + k * nc,
                fits && !abort0 ==> !*abort,
                depth <= 40 ==> MIN_EVAL <= min_eval <= MAX_EVAL,
                !*abort ==> myr_ab_min(s, b0, art, my_pos, opp_pos, depth as nat, a as int, b as int, k as nat, min_eval as int, can_move)
                    == myr_ab_value(s, b0, art, my_pos, opp_pos, depth as nat, alpha as int, beta as int, false),
            decreases 4 - k,
        {
            proof {
                lemma_mul_step(k as int, nc);
            }
            match opp_pos.after_moved(dirs[k]) {
                Some(next_opp) => {
                    if next_opp.is_empty(grid) && !board.get(next_opp.i()) {
                        can_move = true;
                        board.set(next_opp.i());
                        proof {
                            lemma_bits_set(b0, *board, next_opp.0 as int);
                            if h {
                                lemma_child_nodes(n0, depth as nat, k as int, ctx.nodes_evaluated);
                            }
                        }
                        let eval = minimax(grid, my_pos, next_opp, board, depth - 1, a, b, true, start_time, abort, ctx);
                        proof {
                            lemma_mul_step(k as int + 1, nc);
                        }
                        board.clear(next_opp.i());
                        proof {
                            lemma_bits_clear(b0, *board, next_opp.0 as int);
                        }
                        if eval < min_eval {
                            min_eval = eval;
                        }
                        if eval < b {
                            b = eval;
                        }
                        if b <= a {
                            return min_eval;
                        }
                    } else if next_opp == my_pos {
                        can_move = true;
                        if DRAW_EVAL < min_eval {
                            min_eval = DRAW_EVAL;
                        }
                        if DRAW_EVAL < b {
                            b = DRAW_EVAL;
                        }
                        if b <= a {
                            return min_eval;
                        }
                    }
                },
                None => {},
            }
            k = k + 1;
        }
        proof {
            lemma_mul_step(k as int, nc);
        }
        if !can_move {
            return MAX_EVAL - (40 - depth as i32);
        }
        min_eval
    }
}

/// The cells the searches may step on: empty and clear in `board`.
pub open spec fn open_cell(s: Seq<GridCell>, board: BitBoard, j: int) -> bool {
    !occupied(s, GridPosition(j as usize)) && !board.bit(j)
}

/// The open cells of `s` and `visited` once cell `j` is taken away too.
pub open spec fn open_without(s: Seq<GridCell>, visited: Seq<bool>, j: int) -> Seq<bool> {
    open_mask(s, visited.update(j, true))
}

/// Cell `j` is a cut point of the graph of open cells (empty, and clear in
/// `visited`), whose edges join cells one step apart: it is open, and two
/// open cells next to it are joined by no walk through the open cells
/// other than `j`, so that taking `j` away splits its region.
pub open spec fn cut_point(s: Seq<GridCell>, visited: Seq<bool>, j: int) -> bool {
    let c = GridPosition(j as usize);
    &&& 0 <= j < CELL_COUNT
    &&& open_mask(s, visited)[j]
    &&& exists|a: GridPosition, b: GridPosition|
        #![trigger c.adjacent(a), c.adjacent(b)]
        c.adjacent(a) && c.adjacent(b) && open_mask(s, visited)[a.0 as int] && open_mask(s, visited)[b.0 as int]
            && !in_region(open_without(s, visited, j), a, b.0 as int)
}

/// The cut points of the graph of open cells, one entry per cell.
pub open spec fn cut_points(s: Seq<GridCell>, visited: Seq<bool>) -> Seq<bool> {
    Seq::new(CELL_COUNT as nat, |j: int| cut_point(s, visited, j))
}

/// Taking the open cell `j` away disconnects two other open cells that a
/// walk through the open cells joined.
pub open spec fn splits_region(s: Seq<GridCell>, visited: Seq<bool>, j: int) -> bool {
    let om = open_mask(s, visited);
    &&& 0 <= j < CELL_COUNT
    &&& om[j]
    &&& exists|x: GridPosition, y: GridPosition|
        #![trigger in_region(om, x, y.0 as int)]
        x.valid() && y.valid() && x.0 != j && y.0 != j && om[x.0 as int] && om[y.0 as int] && in_region(
            om,
            x,
            y.0 as int,
        ) && !in_region(open_without(s, visited, j), x, y.0 as int)
}

/// The first place at or after `k` where `c` stands on `p`.
proof fn first_index(p: Seq<GridPosition>, c: GridPosition, k: int) -> (i: int)
    requires
        0 <= k,
        exists|t: int| k <= t < p.len() && p[t] == c,
    ensures
        k <= i < p.len(),
        p[i] == c,
        forall|t: int| k <= t < i ==> p[t] != c,
    decreases p.len() - k,
{
    if p[k] == c {
        k
    } else {
        let t0 = choose|t: int| k <= t < p.len() && p[t] == c;
        assert(k + 1 <= t0);
        first_index(p, c, k + 1)
    }
}

/// The last place at or before `k` where `c` stands on `p`.
proof fn last_index(p: Seq<GridPosition>, c: GridPosition, k: int) -> (i: int)
    requires
        k < p.len(),
        exists|t: int| 0 <= t <= k && p[t] == c,
    ensures
        0 <= i <= k,
        p[i] == c,
        forall|t: int| i < t <= k ==> p[t] != c,
    decreases k,
{
    if p[k] == c {
        k
    } else {
        let t0 = choose|t: int| 0 <= t <= k && p[t] == c;
        assert(t0 <= k - 1);
        last_index(p, c, k - 1)
    }
}

/// A cell is a cut point exactly when taking it away disconnects two other
/// open cells that a walk through the open cells joined.
pub proof fn lemma_cut_point_splits(s: Seq<GridCell>, visited: Seq<bool>, j: int)
    requires
        0 <= j < CELL_COUNT,
        visited.len() == CELL_COUNT,
    ensures
        cut_point(s, visited, j) <==> splits_region(s, visited, j),
{
    let om = open_mask(s, visited);
    let ow = open_without(s, visited, j);
    let c = GridPosition(j as usize);
    assert(c.valid());
    assert forall|i: int| 0 <= i < CELL_COUNT implies #[trigger] ow[i] == (om[i] && i != j) by {}
    if cut_point(s, visited, j) {
        let (a, b) = choose|a: GridPosition, b: GridPosition|
            #![trigger c.adjacent(a), c.adjacent(b)]
            c.adjacent(a) && c.adjacent(b) && om[a.0 as int] && om[b.0 as int] && !in_region(ow, a, b.0 as int);
        crate::players::regions::lemma_adjacent_sym(c, a);
        crate::players::regions::lemma_adjacent_sym(c, b);
        crate::players::jack_papel_bots::search::lemma_adjacent_distinct(c, a);
        crate::players::jack_papel_bots::search::lemma_adjacent_distinct(c, b);
        let w = seq![a, c, b];
        assert(step_ok(om, w[0], w[0int + 1]));
        assert(step_ok(om, w[1], w[1int + 1]));
        assert(is_path(om, w, a, b));
        assert(GridPosition(b.0 as usize) == b);
        assert(in_region(om, a, b.0 as int));
        assert(splits_region(s, visited, j));
    }
    if splits_region(s, visited, j) {
        let (x, y) = choose|x: GridPosition, y: GridPosition|
            #![trigger in_region(om, x, y.0 as int)]
            x.valid() && y.valid() && x.0 != j && y.0 != j && om[x.0 as int] && om[y.0 as int] && in_region(
                om,
                x,
                y.0 as int,
            ) && !in_region(ow, x, y.0 as int);
        assert(GridPosition(y.0 as usize) == y);
        assert(y.0 != x.0);
        let p = choose|p: Seq<GridPosition>| #[trigger] is_path(om, p, x, y);
        let n = p.len() as int;
        if !p.contains(c) {
            assert forall|k: int| 1 <= k < p.len() implies ow[(#[trigger] p[k]).0 as int] by {
                assert(step_ok(om, p[k - 1], p[(k - 1) + 1]));
                assert(p[k] != c);
                assert(GridPosition(p[k].0 as usize) == p[k]);
            }
            crate::players::regions::lemma_walk_within(om, ow, p, x, y);
            assert(false);
        }
        let t0 = choose|t: int| 0 <= t < p.len() && p[t] == c;
        let i1 = first_index(p, c, 0);
        let i2 = last_index(p, c, n - 1);
        assert(p[0] == x && x != c);
        assert(p[n - 1] == y && y != c);
        assert(i1 >= 1 && i2 <= n - 2);
        let a = p[i1 - 1];
        let b = p[i2 + 1];
        assert(step_ok(om, p[i1 - 1], p[(i1 - 1) + 1]));
        assert(step_ok(om, p[i2], p[i2 + 1]));
        if i1 - 1 > 0 {
            assert(step_ok(om, p[i1 - 2], p[(i1 - 2) + 1]));
        }
        assert(a.valid() && om[a.0 as int]);
        crate::players::regions::lemma_adjacent_sym(a, c);
        // the stretch before the first visit of `c` avoids it
        crate::players::regions::lemma_sub_walk(om, p, x, y, 0, i1 - 1);
        let pre = p.subrange(0, i1);
        assert forall|k: int| 1 <= k < pre.len() implies ow[(#[trigger] pre[k]).0 as int] by {
            assert(pre[k] == p[k]);
            assert(step_ok(om, p[k - 1], p[(k - 1) + 1]));
            assert(p[k] != c);
            assert(GridPosition(p[k].0 as usize) == p[k]);
        }
        crate::players::regions::lemma_walk_within(om, ow, pre, x, a);
        assert(GridPosition(a.0 as usize) == a);
        assert(in_region(ow, x, a.0 as int));
        // the stretch after the last visit of `c` avoids it
        crate::players::regions::lemma_sub_walk(om, p, x, y, i2 + 1, n - 1);
        let post = p.subrange(i2 + 1, n);
        assert forall|k: int| 1 <= k < post.len() implies ow[(#[trigger] post[k]).0 as int] by {
            assert(post[k] == p[i2 + 1 + k]);
            assert(step_ok(om, p[i2 + k], p[(i2 + k) + 1]));
            assert(p[i2 + 1 + k] != c);
            assert(GridPosition(p[i2 + 1 + k].0 as usize) == p[i2 + 1 + k]);
        }
        crate::players::regions::lemma_walk_within(om, ow, post, b, y);
        assert(in_region(ow, b, y.0 as int));
        if in_region(ow, a, b.0 as int) {
            crate::players::regions::lemma_region_chain(ow, x, a, b);
            crate::players::regions::lemma_region_chain(ow, x, b, y);
            assert(false);
        }
        assert(c.adjacent(a) && c.adjacent(b));
        assert(cut_point(s, visited, j));
    }
}

/// Whether the open cell `pos` is a cut point: a breadth-first search from
/// its first open neighbour, with `pos` taken away, misses another open
/// neighbour. `closed` holds the bits of `board` and is left as it was.
fn is_cut_point(grid: &Grid, board: &BitBoard, closed: &mut Vec<bool>, pos: GridPosition) -> (r: bool)
    requires
        grid@.len() == CELL_COUNT,
        pos.valid(),
        old(closed)@ == board.bits(),
        open_cell(grid@, *board, pos.0 as int),
    ensures
        final(closed)@ == old(closed)@,
        r == cut_point(grid@, board.bits(), pos.0 as int),
{
    let ghost s = grid@;
    let ghost j = pos.0 as int;
    let ghost om = open_mask(s, board.bits());
    let ghost ow = open_without(s, board.bits(), j);
    assert(GridPosition(pos.0 as usize) == pos);
    let ns = pos.neighbors();
    let mut first: Option<GridPosition> = None;
    let mut k: usize = 0;
    while k < ns.len()
        invariant
            grid@.len() == CELL_COUNT,
            closed@ == board.bits(),
            om == open_mask(grid@, board.bits()),
            k <= ns@.len(),
            forall|t: int| 0 <= t < ns@.len() ==> (#[trigger] ns@[t]).valid(),
            forall|q: GridPosition| ns@.contains(q) <==> pos.adjacent(q),
            first matches Some(a) ==> pos.adjacent(a) && a.valid() && om[a.0 as int],
            first is None ==> forall|t: int| 0 <= t < k ==> !om[(#[trigger] ns@[t]).0 as int],
        decreases ns@.len() - k,
    {
        let q = ns[k];
        if first.is_none() && q.is_empty(grid) && !board.get(q.i()) {
            proof {
                assert(ns@.contains(q));
                assert(GridPosition(q.0 as usize) == q);
            }
            first = Some(q);
        }
        k = k + 1;
    }
    match first {
        None => {
            proof {
                assert forall|a: GridPosition, b: GridPosition|
                    #![trigger pos.adjacent(a), pos.adjacent(b)]
                    pos.adjacent(a) && pos.adjacent(b) && om[a.0 as int] && om[b.0 as int] implies in_region(
                    ow,
                    a,
                    b.0 as int,
                ) by {
                    assert(ns@.contains(a));
                    let t = choose|t: int| 0 <= t < ns@.len() && ns@[t] == a;
                }
            }
            false
        },
        Some(a) => {
            closed.set(pos.i(), true);
            proof {
                assert(closed@ =~= board.bits().update(j, true));
                crate::players::jack_papel_bots::search::lemma_adjacent_distinct(pos, a);
                assert(ow[a.0 as int]);
            }
            let mut dists = filled_u16(u16::MAX);
            crate::players::chatgpt_bots::apex_bot::fast_bfs(grid, closed, a, &mut dists);
            closed.set(pos.i(), false);
            proof {
                assert(closed@ =~= board.bits());
            }
            let mut split = false;
            let mut t: usize = 0;
            while t < ns.len()
                invariant
                    grid@.len() == CELL_COUNT,
                    om == open_mask(grid@, board.bits()),
                    ow == open_without(grid@, board.bits(), j),
                    dists@.len() == CELL_COUNT,
                    forall|i: int| 0 <= i < CELL_COUNT ==> (#[trigger] dists@[i] != u16::MAX) == in_region(ow, a, i),
                    t <= ns@.len(),
                    forall|u: int| 0 <= u < ns@.len() ==> (#[trigger] ns@[u]).valid(),
                    split <==> exists|u: int|
                        0 <= u < t && om[(#[trigger] ns@[u]).0 as int] && !in_region(ow, a, ns@[u].0 as int),
                decreases ns@.len() - t,
            {
                let b = ns[t];
                if b.is_empty(grid) && !board.get(b.i()) && dists[b.i()] == u16::MAX {
                    proof {
                        assert(GridPosition(b.0 as usize) == b);
                    }
                    split = true;
                } else {
                    proof {
                        assert(GridPosition(b.0 as usize) == b);
                    }
                }
                proof {
                    if split {
                        if exists|u: int|
                            0 <= u < t && om[(#[trigger] ns@[u]).0 as int] && !in_region(ow, a, ns@[u].0 as int) {
                        } else {
                            assert(0 <= t < t + 1 && om[ns@[t as int].0 as int] && !in_region(ow, a, ns@[t as int].0 as int));
                        }
                    }
                }
                t = t + 1;
            }
            proof {
                if split {
                    let u = choose|u: int|
                        0 <= u < ns@.len() && om[(#[trigger] ns@[u]).0 as int] && !in_region(ow, a, ns@[u].0 as int);
                    let b = ns@[u];
                    assert(ns@.contains(b));
                    assert(pos.adjacent(a) && pos.adjacent(b));
                } else {
                    assert forall|x: GridPosition, y: GridPosition|
                        #![trigger pos.adjacent(x), pos.adjacent(y)]
                        pos.adjacent(x) && pos.adjacent(y) && om[x.0 as int] && om[y.0 as int] implies in_region(
                        ow,
                        x,
                        y.0 as int,
                    ) by {
                        assert(ns@.contains(x));
                        assert(ns@.contains(y));
                        let ux = choose|u: int| 0 <= u < ns@.len() && ns@[u] == x;
                        let uy = choose|u: int| 0 <= u < ns@.len() && ns@[u] == y;
                        crate::players::jack_papel_bots::search::lemma_adjacent_distinct(pos, x);
                        crate::players::jack_papel_bots::search::lemma_adjacent_distinct(pos, y);
                        assert(ow[x.0 as int]);
                        crate::players::regions::lemma_region_via(ow, a, x, y);
                    }
                }
            }
            split
        },
    }
}

/// Marks in `ctx.art_board` exactly the cut points of the graph of open
/// cells, those empty and clear in `board`: the cells whose removal
/// disconnects two other open cells. Each open cell is tested by a search
/// from one of its open neighbours with the cell taken away.
pub fn find_articulation_points(grid: &Grid, board: &BitBoard, ctx: &mut SearchContext)
    requires
        grid@.len() == CELL_COUNT,
        old(ctx).room(1),
    ensures
        final(ctx).wf(),
        final(ctx).current_epoch == old(ctx).current_epoch + 1,
        final(ctx).nodes_evaluated == old(ctx).nodes_evaluated,
        final(ctx).art_board.bits() == cut_points(grid@, board.bits()),
        forall|j: int|
            0 <= j < CELL_COUNT ==> (#[trigger] final(ctx).art_board.bit(j) <==> splits_region(grid@, board.bits(), j)),
        forall|j: int| 0 <= j < CELL_COUNT && #[trigger] final(ctx).art_board.bit(j) ==> open_cell(grid@, *board, j),
{
    ctx.art_board = BitBoard::new();
    let _epoch = ctx.next_epoch();
    let mut closed: Vec<bool> = Vec::new();
    let mut k: usize = 0;
    while k < CELL_COUNT
        invariant
            k <= CELL_COUNT,
            closed@.len() == k,
            forall|i: int| 0 <= i < k ==> closed@[i] == board.bit(i),
        decreases CELL_COUNT - k,
    {
        closed.push(board.get(k));
        k = k + 1;
    }
    proof {
        assert(closed@ =~= board.bits());
    }
    let mut i: usize = 0;
    while i < CELL_COUNT
        invariant
            grid@.len() == CELL_COUNT,
            ctx.wf(),
            ctx.current_epoch == old(ctx).current_epoch + 1,
            ctx.nodes_evaluated == old(ctx).nodes_evaluated,
            closed@ == board.bits(),
            i <= CELL_COUNT,
            forall|j: int| 0 <= j < i ==> #[trigger] ctx.art_board.bit(j) == cut_point(grid@, board.bits(), j),
            forall|j: int| i <= j < CELL_COUNT ==> !#[trigger] ctx.art_board.bit(j),
        decreases CELL_COUNT - i,
    {
        let pos = GridPosition::new_from_usize(i).unwrap();
        proof {
            assert(GridPosition(i as usize) == pos);
        }
        if pos.is_empty(grid) && !board.get(i) {
            if is_cut_point(grid, board, &mut closed, pos) {
                ctx.art_board.set(i);
            }
        }
        i = i + 1;
    }
    proof {
        assert(ctx.art_board.bits() =~= cut_points(grid@, board.bits()));
        assert forall|j: int| 0 <= j < CELL_COUNT implies (#[trigger] ctx.art_board.bit(j) <==> splits_region(
            grid@,
            board.bits(),
            j,
        )) by {
            lemma_cut_point_splits(grid@, board.bits(), j);
        }
    }
}

/// The key by which `Myr` orders its moves: for an open step, the distance
/// of the cell reached from the middle less five per open step from it;
/// 255 for a step that is not open.
pub open spec fn myr_key(s: Seq<GridCell>, my: GridPosition, d: Direction) -> int {
    match my.moved(d) {
        Some(p) => if !occupied(s, p) {
            p.distance(center()) - 5 * free_count(s, none_marked(), p, 4)
        } else {
            255
        },
        None => 255,
    }
}

/// The keys of the four directions, counterclockwise from `PositiveX`.
pub open spec fn myr_keys(s: Seq<GridCell>, my: GridPosition) -> Seq<int> {
    let c = counterclockwise();
    seq![myr_key(s, my, c[0]), myr_key(s, my, c[1]), myr_key(s, my, c[2]), myr_key(s, my, c[3])]
}

fn myr_key_of(grid: &Grid, my_pos: GridPosition, d: Direction, none: &Vec<bool>) -> (r: i32)
    requires
        grid@.len() == CELL_COUNT,
        my_pos.valid(),
        none@ == none_marked(),
    ensures
        r == myr_key(grid@, my_pos, d),
{
    match my_pos.after_moved(d) {
        Some(next_pos) => {
            if next_pos.is_empty(grid) {
                let center = GridPosition::new(GRID_SIZE / 2, GRID_SIZE / 2).unwrap();
                proof {
                    assert(center == GridPosition(220));
                }
                let c_dist = next_pos.manhattan_distance(&center) as i32;
                let open_neighbors = free_steps(grid, none, next_pos);
                c_dist - open_neighbors * 5
            } else {
                255
            }
        },
        None => 255,
    }
}

/// The four directions ordered by `myr_key`, ties in counterclockwise order.
pub fn myr_ordered_moves(grid: &Grid, my_pos: GridPosition) -> (r: Vec<Direction>)
    requires
        grid@.len() == CELL_COUNT,
        my_pos.valid(),
    ensures
        r@ == ordered_by(myr_keys(grid@, my_pos)),
{
    let none = all_false();
    let dirs = Direction::all();
    let k0 = myr_key_of(grid, my_pos, dirs[0], &none);
    let k1 = myr_key_of(grid, my_pos, dirs[1], &none);
    let k2 = myr_key_of(grid, my_pos, dirs[2], &none);
    let k3 = myr_key_of(grid, my_pos, dirs[3], &none);
    let r = order_by_keys(k0, k1, k2, k3);
    proof {
        assert(seq![k0 as int, k1 as int, k2 as int, k3 as int] =~= myr_keys(grid@, my_pos));
    }
    r
}

/// One round of the search of a player alone in its region, as
/// `survival_round` of the other bot; stops when the search is stopped, and
/// otherwise returns `survival_pick`.
pub fn myr_survival_round(
    grid: &Grid,
    my_pos: GridPosition,
    board: &mut BitBoard,
    max_depth: u16,
    start_time: &Instant,
    abort: &mut bool,
    ctx: &mut SearchContext,
) -> (r: Option<Direction>)
    requires
        grid@.len() == CELL_COUNT,
        old(board).bits() == none_marked(),
        my_pos.valid(),
        max_depth >= 1,
        old(ctx).wf(),
        !*old(abort),
    ensures
        final(board).bits() == none_marked(),
        final(ctx).wf(),
        final(ctx).art_board == old(ctx).art_board,
        !*final(abort) ==> r == survival_pick(grid@, my_pos, max_depth as nat, 0, -1, None),
        *final(abort) ==> r is None,
        old(ctx).current_epoch >= EPOCH_LIMIT ==> r is None,
        myr_search_fits(old(ctx).nodes_evaluated, old(ctx).current_epoch, max_depth as nat) ==> !*final(abort)
            && final(ctx).nodes_evaluated <= old(ctx).nodes_evaluated + myr_node_bound(max_depth as nat)
            && final(ctx).current_epoch <= old(ctx).current_epoch + 2 * myr_node_bound(max_depth as nat),
{
    let ghost n0 = ctx.nodes_evaluated;
    let ghost e0 = ctx.current_epoch;
    let ghost fits = myr_search_fits(n0, e0, max_depth as nat);
    let ghost nc = myr_node_bound((max_depth - 1) as nat);
    proof {
        lemma_node_bound(max_depth as nat);
        lemma_node_bound((max_depth - 1) as nat);
    }
    let dirs = Direction::all();
    let mut best_val: i32 = -1;
    let mut current_best_move: Option<Direction> = None;
    let mut k: usize = 0;
    while k < 4
        invariant
            grid@.len() == CELL_COUNT,
            board.bits() == none_marked(),
            my_pos.valid(),
            max_depth >= 1,
            ctx.wf(),
            ctx.art_board == old(ctx).art_board,
            dirs@ == counterclockwise(),
            k <= 4,
            !*abort,
            n0 == old(ctx).nodes_evaluated,
            e0 == old(ctx).current_epoch,
            fits == myr_search_fits(n0, e0, max_depth as nat),
            nc == myr_node_bound((max_depth - 1) as nat),
            nc >= 1,
            myr_node_bound(max_depth as nat) == 1 + 4 * nc,
            e0 <= ctx.current_epoch <= e0 + 2 * (k * nc),
            fits ==> n0 <= ctx.nodes_evaluated <= n0 + k * nc,
            e0 >= EPOCH_LIMIT ==> current_best_move is None,
            !*abort ==> survival_pick(grid@, my_pos, max_depth as nat, k as nat, best_val as int, current_best_move)
                == survival_pick(grid@, my_pos, max_depth as nat, 0, -1, None),
        decreases 4 - k,
    {
        let dir = dirs[k];
        proof {
            lemma_mul_step(k as int, nc);
        }
        match my_pos.after_moved(dir) {
            Some(next_pos) => {
                if next_pos.is_empty(grid) {
                    board.set(next_pos.i());
                    proof {
                        lemma_bits_set(none_marked(), *board, next_pos.0 as int);
                        if fits {
                            lemma_child_nodes(n0, max_depth as nat, k as int, ctx.nodes_evaluated);
                        }
                        assert((max_depth - 1) as nat == (max_depth - 1u16) as nat);
                    }
                    let val = survival_search(grid, next_pos, board, 1, max_depth, start_time, abort, ctx);
                    proof {
                        lemma_mul_step(k as int + 1, nc);
                    }
                    board.clear(next_pos.i());
                    proof {
                        lemma_bits_clear(none_marked(), *board, next_pos.0 as int);
                    }
                    if *abort {
                        return None;
                    }
                    if val > best_val {
                        best_val = val;
                        current_best_move = Some(dir);
                    }
                }
            },
            None => {},
        }
        k = k + 1;
    }
    proof {
        lemma_mul_step(k as int, nc);
    }
    current_best_move
}

/// The move, among `moves` from the `k`-th on, whose value by
/// `myr_ab_value` beats `best_val` and every move before it, with that
/// value; the window's lower end rises with each move searched.
pub open spec fn myr_combat_pick(
    s: Seq<GridCell>,
    art: Seq<bool>,
    my: GridPosition,
    opp: GridPosition,
    moves: Seq<Direction>,
    depth: nat,
    k: nat,
    alpha: int,
    best_val: int,
    best: Option<Direction>,
) -> (Option<Direction>, int)
    decreases moves.len() - k,
{
    if k >= moves.len() {
        (best, best_val)
    } else {
        let dir = moves[k as int];
        match my.moved(dir) {
            Some(n) => if !occupied(s, n) || n == opp {
                let v = myr_ab_value(s, none_marked().update(n.0 as int, true), art, n, opp, depth, alpha, MAX_EVAL as int, false);
                let bv = if v > best_val {
                    v
                } else {
                    best_val
                };
                let b = if v > best_val {
                    Some(dir)
                } else {
                    best
                };
                let a2 = if bv > alpha {
                    bv
                } else {
                    alpha
                };
                myr_combat_pick(s, art, my, opp, moves, depth, k + 1, a2, bv, b)
            } else {
                myr_combat_pick(s, art, my, opp, moves, depth, k + 1, alpha, best_val, best)
            },
            None => myr_combat_pick(s, art, my, opp, moves, depth, k + 1, alpha, best_val, best),
        }
    }
}

/// One round of the search of a player that can still meet the other, as
/// `combat_round` of the other bot with `myr_ab_value`; where the search
/// was not stopped, returns `myr_combat_pick`.
pub fn myr_combat_round(
    grid: &Grid,
    my_pos: GridPosition,
    opp_pos: GridPosition,
    moves: &Vec<Direction>,
    board: &mut BitBoard,
    depth: u8,
    start_time: &Instant,
    abort: &mut bool,
    ctx: &mut SearchContext,
) -> (r: (Option<Direction>, i32))
    requires
        grid@.len() == CELL_COUNT,
        old(board).bits() == none_marked(),
        my_pos.valid(),
        opp_pos.valid(),
        old(ctx).wf(),
        !*old(abort),
    ensures
        final(board).bits() == none_marked(),
        final(ctx).wf(),
        final(ctx).art_board == old(ctx).art_board,
        !*final(abort) ==> r.0 == myr_combat_pick(
            grid@,
            old(ctx).art_board.bits(),
            my_pos,
            opp_pos,
            moves@,
            depth as nat,
            0,
            MIN_EVAL as int,
            MIN_EVAL as int,
            None,
        ).0,
        !*final(abort) ==> r.1 == myr_combat_pick(
            grid@,
            old(ctx).art_board.bits(),
            my_pos,
            opp_pos,
            moves@,
            depth as nat,
            0,
            MIN_EVAL as int,
            MIN_EVAL as int,
            None,
        ).1,
        *final(abort) ==> r == (None::<Direction>, 0i32),
        old(ctx).current_epoch >= EPOCH_LIMIT ==> r.0 is None,
        moves@.len() <= 4 && myr_search_fits(old(ctx).nodes_evaluated, old(ctx).current_epoch, depth as nat + 1)
            ==> !*final(abort) && final(ctx).nodes_evaluated <= old(ctx).nodes_evaluated + myr_node_bound(
            depth as nat + 1,
        ) && final(ctx).current_epoch <= old(ctx).current_epoch + 2 * myr_node_bound(depth as nat + 1),
{
    let ghost art = ctx.art_board.bits();
    let ghost n0 = ctx.nodes_evaluated;
    let ghost e0 = ctx.current_epoch;
    let ghost fits = moves@.len() <= 4 && myr_search_fits(n0, e0, depth as nat + 1);
    let ghost nc = myr_node_bound(depth as nat);
    proof {
        lemma_node_bound(depth as nat + 1);
        lemma_node_bound(depth as nat);
        assert(((depth as nat + 1) - 1) as nat == depth as nat);
    }
    let mut alpha = MIN_EVAL;
    let beta = MAX_EVAL;
    let mut best_val = MIN_EVAL;
    let mut current_best_move: Option<Direction> = None;
    let mut k: usize = 0;
    while k < moves.len()
        invariant
            grid@.len() == CELL_COUNT,
            board.bits() == none_marked(),
            my_pos.valid(),
            opp_pos.valid(),
            ctx.wf(),
            ctx.art_board == old(ctx).art_board,
            art == old(ctx).art_board.bits(),
            beta == MAX_EVAL,
            !*abort,
            k <= moves@.len(),
            n0 == old(ctx).nodes_evaluated,
            e0 == old(ctx).current_epoch,
            fits == (moves@.len() <= 4 && myr_search_fits(n0, e0, depth as nat + 1)),
            nc == myr_node_bound(depth as nat),
            nc == myr_node_bound(((depth as nat + 1) - 1) as nat),
            nc >= 1,
            myr_node_bound(depth as nat + 1) == 1 + 4 * nc,
            e0 <= ctx.current_epoch,
            fits ==> ctx.current_epoch <= e0 + 2 * (k * nc),
            fits ==> n0 <= ctx.nodes_evaluated <= n0 + k * nc,
            e0 >= EPOCH_LIMIT ==> current_best_move is None,
            myr_combat_pick(grid@, art, my_pos, opp_pos, moves@, depth as nat, k as nat, alpha as int, best_val as int, current_best_move)
                == myr_combat_pick(grid@, art, my_pos, opp_pos, moves@, depth as nat, 0, MIN_EVAL as int, MIN_EVAL as int, None),
        decreases moves@.len() - k,
    {
        let dir = moves[k];
        proof {
            lemma_mul_step(k as int, nc);
        }
        match my_pos.after_moved(dir) {
            Some(next_pos) => {
                if next_pos.is_empty(grid) || next_pos == opp_pos {
                    board.set(next_pos.i());
                    proof {
                        lemma_bits_set(none_marked(), *board, next_pos.0 as int);
                        if fits {
                            lemma_child_nodes(n0, depth as nat + 1, k as int, ctx.nodes_evaluated);
                        }
                    }
                    let val = minimax(grid, next_pos, opp_pos, board, depth, alpha, beta, false, start_time, abort, ctx);
                    proof {
                        lemma_mul_step(k as int + 1, nc);
                    }
                    board.clear(next_pos.i());
                    proof {
                        lemma_bits_clear(none_marked(), *board, next_pos.0 as int);
                    }
                    if *abort {
                        return (None, 0);
                    }
                    if val > best_val {
                        best_val = val;
                        current_best_move = Some(dir);
                    }
                    if best_val > alpha {
                        alpha = best_val;
                    }
                }
            },
            None => {},
        }
        k = k + 1;
    }
    proof {
        lemma_mul_step(k as int, nc);
    }
    (current_best_move, best_val)
}

/// The move `Myr` chooses, when it can still meet the other player, after
/// `rounds` rounds of deepening with the articulation points `art`, and
/// whether a round found a winning line, which ends the deepening.
pub open spec fn myr_combat_plan(
    s: Seq<GridCell>,
    art: Seq<bool>,
    my: GridPosition,
    opp: GridPosition,
    rounds: nat,
) -> (Direction, bool)
    decreases rounds,
{
    if rounds == 0 {
        (first_open(s, my, 0), false)
    } else {
        let prev = myr_combat_plan(s, art, my, opp, (rounds - 1) as nat);
        if prev.1 {
            prev
        } else {
            let picked = myr_combat_pick(
                s,
                art,
                my,
                opp,
                ordered_by(myr_keys(s, my)),
                rounds,
                0,
                MIN_EVAL as int,
                MIN_EVAL as int,
                None,
            );
            match picked.0 {
                Some(m) => (m, picked.1 >= MAX_EVAL - 100),
                None => (prev.0, false),
            }
        }
    }
}

/// The most rounds of deepening `Myr` completes.
pub open spec fn myr_round_limit(s: Seq<GridCell>, me: PlayerId) -> nat {
    if apart(s, me) {
        399
    } else {
        34
    }
}

/// The rounds of deepening `Myr` always completes: they count too few nodes
/// to read the clock.
pub open spec fn myr_round_floor(s: Seq<GridCell>, me: PlayerId) -> nat {
    if apart(s, me) {
        3
    } else {
        2
    }
}

/// The move `Myr` makes after `rounds` completed rounds of deepening, with
/// the articulation points `art`.
pub open spec fn myr_plan(s: Seq<GridCell>, me: PlayerId, art: Seq<bool>, rounds: nat) -> Direction {
    let my = head_position(s, me);
    let opp = head_position(s, me.spec_other());
    if apart(s, me) {
        survival_plan(s, my, rounds)
    } else {
        myr_combat_plan(s, art, my, opp, rounds).0
    }
}

/// Searches like `ApexBot`, with reusable tables, a bit board of the cells
/// used, an evaluation that weighs the articulation points of the open
/// cells, and deeper rounds; a round the clock cuts short is dropped.
pub struct Myr {
    pub me: PlayerId,
}

impl Bot for Myr {
    open spec fn plays_as(&self) -> PlayerId {
        self.me
    }

    fn new(my_player_id: PlayerId) -> (r: Self)
        ensures
            r.me == my_player_id,
    {
        Myr { me: my_player_id }
    }

    #[verifier::rlimit(80)]
    #[verifier::spinoff_prover]
    fn next_action(&mut self, game_state: &GameState) -> (r: Direction)
        ensures
            exists|n: nat|
                myr_round_floor(game_state.current(), old(self).me) <= n <= myr_round_limit(
                    game_state.current(),
                    old(self).me,
                ) && r == myr_plan(
                    game_state.current(),
                    old(self).me,
                    cut_points(game_state.current(), none_marked()),
                    n,
                ),
    {
        let start_time = now();
        let grid = game_state.current_grid();
        let ghost s = grid@;
        let my_pos = self.me.get_head_pos(grid);
        let opp_pos = self.me.other().get_head_pos(grid);
        let mut board = BitBoard::new();
        proof {
            assert(board.bits() =~= none_marked());
        }
        let mut ctx = SearchContext::new();
        let separated = is_separated(grid, my_pos, opp_pos, &mut ctx);
        if !separated {
            find_articulation_points(grid, &board, &mut ctx);
        }
        let ghost art = ctx.art_board.bits();
        let mut best_move = default_move(grid, my_pos);
        let mut abort = false;
        proof {
            lemma_node_bound_small();
        }
        if separated {
            let mut depth: u16 = 1;
            while depth < 400 && !abort
                invariant
                    s == grid@,
                    grid@.len() == CELL_COUNT,
                    my_pos.valid(),
                    board.bits() == none_marked(),
                    ctx.wf(),
                    1 <= depth <= 400,
                    best_move == survival_plan(s, my_pos, (depth - 1) as nat),
                    myr_node_bound(1) == 5,
                    myr_node_bound(2) == 21,
                    myr_node_bound(3) == 85,
                    depth <= 3 ==> ctx.nodes_evaluated <= (if depth == 1 {
                        0int
                    } else if depth == 2 {
                        5int
                    } else {
                        26int
                    }) && ctx.current_epoch <= 1 + 2 * (if depth == 1 {
                        0int
                    } else if depth == 2 {
                        5int
                    } else {
                        26int
                    }),
                    abort ==> depth >= 4,
                decreases 400 - depth + if abort {
                    0int
                } else {
                    1int
                },
            {
                let ghost fits = depth <= 3 && myr_search_fits(ctx.nodes_evaluated, ctx.current_epoch, depth as nat);
                proof {
                    if depth <= 3 {
                        assert(ctx.nodes_evaluated % 256 == ctx.nodes_evaluated);
                        assert(fits);
                    }
                }
                let ghost n_before = ctx.nodes_evaluated;
                let found = myr_survival_round(grid, my_pos, &mut board, depth, &start_time, &mut abort, &mut ctx);
                proof {
                    if fits {
                        assert(!abort);
                        assert(ctx.nodes_evaluated <= n_before + myr_node_bound(depth as nat));
                    }
                }
                if !abort {
                    if let Some(m) = found {
                        best_move = m;
                    }
                    depth = depth + 1;
                }
            }
            proof {
                assert((depth - 1) as nat <= myr_round_limit(s, self.me));
                assert(best_move == myr_plan(s, self.me, art, (depth - 1) as nat));
                assert(best_move == myr_plan(s, self.me, cut_points(s, none_marked()), (depth - 1) as nat));
            }
        } else {
            let moves = myr_ordered_moves(grid, my_pos);
            let mut depth: u8 = 1;
            let mut stopped = false;
            while depth < 35 && !abort && !stopped
                invariant
                    s == grid@,
                    grid@.len() == CELL_COUNT,
                    my_pos.valid(),
                    opp_pos.valid(),
                    moves@ == ordered_by(myr_keys(s, my_pos)),
                    board.bits() == none_marked(),
                    ctx.wf(),
                    ctx.art_board.bits() == art,
                    1 <= depth <= 35,
                    (best_move, stopped) == myr_combat_plan(s, art, my_pos, opp_pos, (depth - 1) as nat),
                    moves@.len() == 4,
                    myr_node_bound(2) == 21,
                    myr_node_bound(3) == 85,
                    depth <= 2 ==> ctx.nodes_evaluated <= (if depth == 1 {
                        0int
                    } else {
                        21int
                    }) && ctx.current_epoch <= 2 + 2 * (if depth == 1 {
                        0int
                    } else {
                        21int
                    }),
                    abort ==> depth >= 3,
                    stopped ==> depth >= 2,
                decreases 35 - depth + if abort {
                    0int
                } else {
                    1int
                },
            {
                let ghost fits = depth <= 2 && myr_search_fits(ctx.nodes_evaluated, ctx.current_epoch, depth as nat + 1);
                proof {
                    if depth <= 2 {
                        assert(ctx.nodes_evaluated % 256 == ctx.nodes_evaluated);
                        assert(myr_node_bound(depth as nat + 1) == if depth == 1 {
                            21int
                        } else {
                            85int
                        });
                        assert(fits);
                    }
                }
                let ghost n_before = ctx.nodes_evaluated;
                let ghost e_before = ctx.current_epoch;
                let (found, best_val) = myr_combat_round(
                    grid,
                    my_pos,
                    opp_pos,
                    &moves,
                    &mut board,
                    depth,
                    &start_time,
                    &mut abort,
                    &mut ctx,
                );
                proof {
                    if fits {
                        assert(!abort);
                        assert(ctx.nodes_evaluated <= n_before + myr_node_bound(depth as nat + 1));
                    }
                }
                if !abort {
                    if let Some(m) = found {
                        best_move = m;
                        if best_val >= MAX_EVAL - 100 {
                            stopped = true;
                        }
                    }
                    depth = depth + 1;
                }
            }
            proof {
                assert(art =~= cut_points(s, none_marked()));
                assert((depth - 1) as nat <= myr_round_limit(s, self.me));
                assert(best_move == myr_plan(s, self.me, art, (depth - 1) as nat));
                if depth < 3 {
                    assert(stopped);
                    assert(depth == 2);
                    assert(myr_combat_plan(s, art, my_pos, opp_pos, 2) == myr_combat_plan(s, art, my_pos, opp_pos, 1));
                    assert(best_move == myr_plan(s, self.me, art, 2));
                }
            }
        }
        best_move
    }
}

} // verus!
