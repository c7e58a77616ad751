use vstd::prelude::*;

use crate::engine::direction::Direction;
use crate::engine::game_state::GameState;
use crate::engine::grid::{
    cells_wf, head_position, lemma_head_index, lemma_heads_differ, occupied, player_o, player_x, Grid,
};
use crate::engine::grid_cell::GridCell;
use crate::engine::grid_position::{GridPosition, CELL_COUNT};
use crate::engine::player_id::PlayerId;
use crate::players::chatgpt_bots::apex_bot::{all_false, fast_bfs, lemma_distance_unique, shortest};
use crate::players::jack_papel_bots::search::{
    a_star_pathfinding, empty_mask, is_path, lemma_adjacent_distinct, reachable, step_ok,
};
use crate::players::moves::{
    calm_directions, ideal_directions, not_instant_crash_directions, safe_directions,
};
use crate::players::jack_papel_bots::farthest::farthest_search;
use crate::players::regions::{
    distance_is, in_region, lemma_path_start, lemma_region_step, lemma_walk_succ, open_mask, walk_len,
};

pub mod search;
pub mod farthest;
pub mod hallucinator;
pub mod freedom_eater;
pub mod rip_and_tear;
pub mod cut_em_offer;

verus! {

/// The allowed-mask of the empty cells of a field.
pub open spec fn empty_cells(s: Seq<GridCell>) -> Seq<bool> {
    Seq::new(CELL_COUNT as nat, |i: int| !occupied(s, GridPosition(i as usize)))
}

/// The direction of the step from `head` to the adjacent position `next`, or
/// right where `next` is not adjacent.
pub open spec fn step_direction(head: GridPosition, next: GridPosition) -> Direction {
    if head.moved(Direction::PositiveY) == Some(next) {
        Direction::PositiveY
    } else if head.moved(Direction::NegativeY) == Some(next) {
        Direction::NegativeY
    } else if head.moved(Direction::PositiveX) == Some(next) {
        Direction::PositiveX
    } else if head.moved(Direction::NegativeX) == Some(next) {
        Direction::NegativeX
    } else {
        Direction::PositiveX
    }
}

/// Stepping from `head` in the direction of an adjacent `next` reaches `next`.
pub proof fn lemma_step_direction(head: GridPosition, next: GridPosition)
    requires
        head.adjacent(next),
    ensures
        head.moved(step_direction(head, next)) == Some(next),
{
    let d = choose|d: Direction| #[trigger] head.moved(d) == Some(next);
    match d {
        Direction::PositiveY => {},
        Direction::NegativeY => {},
        Direction::PositiveX => {},
        Direction::NegativeX => {},
    }
}

/// The direction of the step from `head` to `next_pos`; right where the two
/// are not adjacent.
pub fn direction_to(head: GridPosition, next_pos: GridPosition) -> (r: Direction)
    requires
        head.valid(),
    ensures
        r == step_direction(head, next_pos),
{
    if head.after_moved(Direction::PositiveY) == Some(next_pos) {
        Direction::PositiveY
    } else if head.after_moved(Direction::NegativeY) == Some(next_pos) {
        Direction::NegativeY
    } else if head.after_moved(Direction::PositiveX) == Some(next_pos) {
        Direction::PositiveX
    } else if head.after_moved(Direction::NegativeX) == Some(next_pos) {
        Direction::NegativeX
    } else {
        Direction::PositiveX
    }
}

/// The empty cells one step away from `pos`.
pub fn get_neighbors(pos: GridPosition, grid: &Grid) -> (r: Vec<GridPosition>)
    requires
        pos.valid(),
        grid@.len() == CELL_COUNT,
    ensures
        forall|q: GridPosition| r@.contains(q) <==> pos.adjacent(q) && !occupied(grid@, q),
        forall|k: int| 0 <= k < r@.len() ==> (#[trigger] r@[k]).valid(),
{
    let ns = pos.neighbors();
    let mut r: Vec<GridPosition> = Vec::new();
    let mut k: usize = 0;
    while k < ns.len()
        invariant
            grid@.len() == CELL_COUNT,
            k <= ns@.len(),
            forall|j: int| 0 <= j < ns@.len() ==> (#[trigger] ns@[j]).valid(),
            forall|q: GridPosition| ns@.contains(q) <==> pos.adjacent(q),
            forall|q: GridPosition|
                r@.contains(q) <==> (exists|j: int| 0 <= j < k && ns@[j] == q) && !occupied(grid@, q),
            forall|j: int| 0 <= j < r@.len() ==> (#[trigger] r@[j]).valid(),
        decreases ns@.len() - k,
    {
        let q = ns[k];
        let ghost old_r = r@;
        if q.is_empty(grid) {
            r.push(q);
        }
        proof {
            assert forall|x: GridPosition|
                r@.contains(x) <==> (exists|j: int| 0 <= j < k + 1 && ns@[j] == x) && !occupied(grid@, x) by {
                if r@.contains(x) {
                    let i = choose|i: int| 0 <= i < r@.len() && r@[i] == x;
                    if i < old_r.len() {
                        assert(old_r.contains(x));
                    }
                }
                if (exists|j: int| 0 <= j < k + 1 && ns@[j] == x) && !occupied(grid@, x) {
                    let j = choose|j: int| 0 <= j < k + 1 && ns@[j] == x;
                    if j < k {
                        assert(old_r.contains(x));
                        let i = choose|i: int| 0 <= i < old_r.len() && old_r[i] == x;
                        assert(r@[i] == x);
                    } else {
                        assert(r@[r@.len() - 1] == x);
                    }
                }
            }
        }
        k = k + 1;
    }
    proof {
        assert forall|q: GridPosition| r@.contains(q) <==> pos.adjacent(q) && !occupied(grid@, q) by {
            if pos.adjacent(q) && !occupied(grid@, q) {
                assert(ns@.contains(q));
            }
        }
    }
    r
}

/// A shortest-first search for a walk through empty cells from `start` to
/// `fruit_location`; `Some` exactly when such a walk exists.
pub fn pathfind(start: GridPosition, fruit_location: GridPosition, grid: &Grid) -> (r: Option<
    Vec<GridPosition>,
>)
    requires
        start.valid(),
        fruit_location.valid(),
        grid@.len() == CELL_COUNT,
    ensures
        r is Some <==> reachable(empty_cells(grid@), start, fruit_location),
        r matches Some(p) ==> is_path(empty_cells(grid@), p@, start, fruit_location),
        r matches Some(p) ==> p@.no_duplicates(),
{
    let mask = empty_mask(grid);
    assert(mask@ =~= empty_cells(grid@));
    a_star_pathfinding(start, fruit_location, &mask)
}

/// A cell reachable from `start` through empty cells at the greatest
/// shortest distance from it, and that distance.
pub fn find_farthest_point(start: GridPosition, grid: &Grid) -> (r: (usize, GridPosition))
    requires
        start.valid(),
        grid@.len() == CELL_COUNT,
    ensures
        r.1.valid(),
        reachable(empty_cells(grid@), start, r.1),
        in_region(empty_cells(grid@), start, r.1.0 as int),
        r.0 == shortest(empty_cells(grid@), start, r.1.0 as int),
        forall|i: int|
            0 <= i < CELL_COUNT && in_region(empty_cells(grid@), start, i) ==> #[trigger] shortest(
                empty_cells(grid@),
                start,
                i,
            ) <= r.0,
        is_farthest_distance(grid@, start, farthest_distance(grid@, start)),
        r.0 == farthest_distance(grid@, start),
        farthest_cell(grid@, start, r.1),
{
    let mask = empty_mask(grid);
    assert(mask@ =~= empty_cells(grid@));
    let r = farthest_search(start, &mask);
    proof {
        let s = grid@;
        assert(is_farthest_distance(s, start, r.0 as int));
        let m = farthest_distance(s, start);
        let i = choose|i: int|
            0 <= i < CELL_COUNT && #[trigger] in_region(empty_cells(s), start, i) && shortest(empty_cells(s), start, i)
                == m;
        assert(shortest(empty_cells(s), start, r.1.0 as int) <= m);
        assert(GridPosition(r.1.0 as usize) == r.1);
        if r.1.0 == start.0 {
            assert(r.1 == start);
            lemma_path_start(empty_cells(grid@), start);
        }
    }
    r
}

/// The first step of a walk found by `a_star_pathfinding` from `from` to
/// `goal` through the cells of `allowed`: the direction towards the second
/// cell of the walk. `None` where there is no walk, or the walk does not
/// move.
pub fn masked_step(from: GridPosition, goal: GridPosition, allowed: &Vec<bool>) -> (r: Option<Direction>)
    requires
        from.valid(),
        goal.valid(),
        allowed@.len() == CELL_COUNT,
    ensures
        r matches Some(d) ==> (from.moved(d) matches Some(q) && q.valid() && allowed@[q.0 as int]),
        r matches Some(d) ==> (from.moved(d) matches Some(q) && reachable(allowed@, q, goal)),
        reachable(allowed@, from, goal) && goal != from ==> r is Some,
        !reachable(allowed@, from, goal) ==> r is None,
{
    match a_star_pathfinding(from, goal, allowed) {
        Some(path) => {
            if path.len() > 1 {
                let next_pos = path[1];
                proof {
                    assert(step_ok(allowed@, path@[0], path@[0int + 1]));
                    lemma_step_direction(from, next_pos);
                    let rest = path@.subrange(1, path@.len() as int);
                    assert forall|k: int| 0 <= k < rest.len() - 1 implies #[trigger] step_ok(
                        allowed@,
                        rest[k],
                        rest[k + 1],
                    ) by {
                        assert(step_ok(allowed@, path@[k + 1], path@[(k + 1) + 1]));
                    }
                    assert(is_path(allowed@, rest, next_pos, goal));
                }
                Some(direction_to(from, next_pos))
            } else {
                None
            }
        },
        None => None,
    }
}

/// The first step of a walk through empty cells from `from` to `goal`.
pub fn path_step(from: GridPosition, goal: GridPosition, grid: &Grid) -> (r: Option<Direction>)
    requires
        from.valid(),
        goal.valid(),
        grid@.len() == CELL_COUNT,
    ensures
        r matches Some(d) ==> (from.moved(d) matches Some(q) && !occupied(grid@, q)),
        r matches Some(d) ==> (from.moved(d) matches Some(q) && reachable(empty_cells(grid@), q, goal)),
        reachable(empty_cells(grid@), from, goal) && goal != from ==> r is Some,
        !reachable(empty_cells(grid@), from, goal) ==> r is None,
{
    let mask = empty_mask(grid);
    assert(mask@ =~= empty_cells(grid@));
    masked_step(from, goal, &mask)
}

/// The cells that are empty and not next to the head of `player`.
pub open spec fn head_free_cells(s: Seq<GridCell>, player: PlayerId) -> Seq<bool> {
    Seq::new(
        CELL_COUNT as nat,
        |i: int|
            !occupied(s, GridPosition(i as usize)) && !(exists|q: GridPosition|
                #![trigger GridPosition(i as usize).adjacent(q)]
                GridPosition(i as usize).adjacent(q) && s[q.0 as int].spec_is_players_head(player)),
    )
}

/// The allowed-mask of `head_free_cells`.
pub fn head_free_mask(grid: &Grid, player: PlayerId) -> (r: Vec<bool>)
    requires
        grid.wf(),
    ensures
        r@ == head_free_cells(grid@, player),
{
    let mut r: Vec<bool> = Vec::new();
    let mut k: usize = 0;
    while k < CELL_COUNT
        invariant
            grid.wf(),
            k <= CELL_COUNT,
            r@.len() == k,
            forall|i: int| 0 <= i < k ==> r@[i] == head_free_cells(grid@, player)[i],
        decreases CELL_COUNT - k,
    {
        let pos = GridPosition(k);
        let b = pos.is_empty(grid) && !pos.borders_players_head(grid, player);
        r.push(b);
        k = k + 1;
    }
    assert(r@ =~= head_free_cells(grid@, player));
    r
}

/// The fewest steps through empty cells from `start` to `goal`: `Some`
/// exactly when `goal` is `start` or can be reached from it.
pub fn shortest_distance(start: GridPosition, goal: GridPosition, grid: &Grid) -> (r: Option<usize>)
    requires
        start.valid(),
        goal.valid(),
        grid@.len() == CELL_COUNT,
    ensures
        r is Some <==> in_region(empty_cells(grid@), start, goal.0 as int),
        r matches Some(d) ==> d == shortest(empty_cells(grid@), start, goal.0 as int),
{
    let none = all_false();
    let mut dists: Vec<u16> = Vec::new();
    let mut k: usize = 0;
    while k < CELL_COUNT
        invariant
            k <= CELL_COUNT,
            dists@.len() == k,
            forall|i: int| 0 <= i < k ==> dists@[i] == u16::MAX,
        decreases CELL_COUNT - k,
    {
        dists.push(u16::MAX);
        k = k + 1;
    }
    fast_bfs(grid, &none, start, &mut dists);
    proof {
        assert(open_mask(grid@, none@) =~= empty_cells(grid@));
    }
    let d = dists[goal.i()];
    if d == u16::MAX {
        None
    } else {
        Some(d as usize)
    }
}

/// What the bots of this family share: knowing which player they are, the
/// moves that do not crash, the calm ones, and the direction of a step.
pub trait JackBot {
    /// The player this bot plays.
    spec fn player(&self) -> PlayerId;

    fn my_player_id(&self) -> (r: PlayerId)
        ensures
            r == self.player(),
    ;

    /// The directions in which this bot can move without crashing at once.
    fn not_instant_crash_directions(&self, game_state: &GameState) -> (r: Vec<Direction>)
        requires
            game_state.wf(),
        ensures
            r@ == safe_directions(game_state.current(), self.player()),
    {
        not_instant_crash_directions(game_state.current_grid(), self.my_player_id())
    }

    /// The safe directions that do not end next to the other player's head.
    fn ideal_directions(&self, game_state: &GameState) -> (r: Vec<Direction>)
        requires
            game_state.wf(),
        ensures
            r@ == calm_directions(game_state.current(), self.player()),
    {
        ideal_directions(game_state.current_grid(), self.my_player_id())
    }

    /// The direction from this bot's head to the adjacent cell `next_pos`;
    /// right where the two are not adjacent.
    fn direction_to(&self, game_state: &GameState, next_pos: GridPosition) -> (r: Direction)
        requires
            game_state.wf(),
        ensures
            r == step_direction(head_position(game_state.current(), self.player()), next_pos),
    {
        let head = game_state.current_grid().player_head_position(self.my_player_id());
        direction_to(head, next_pos)
    }
}

/// Some step from `pos` enters an empty cell of `s`.
pub open spec fn can_step(s: Seq<GridCell>, pos: GridPosition) -> bool {
    exists|d: Direction| #[trigger] pos.moved(d) matches Some(q) && !occupied(s, q)
}

/// `m` is the greatest shortest distance from `start` over the empty cells
/// of `s`.
pub open spec fn is_farthest_distance(s: Seq<GridCell>, start: GridPosition, m: int) -> bool {
    &&& exists|i: int|
        0 <= i < CELL_COUNT && #[trigger] in_region(empty_cells(s), start, i) && shortest(empty_cells(s), start, i) == m
    &&& forall|i: int|
        0 <= i < CELL_COUNT && in_region(empty_cells(s), start, i) ==> #[trigger] shortest(empty_cells(s), start, i)
            <= m
}

/// The greatest shortest distance from `start` over the empty cells of `s`.
pub open spec fn farthest_distance(s: Seq<GridCell>, start: GridPosition) -> int {
    choose|m: int| is_farthest_distance(s, start, m)
}

/// `f` is a cell of the region of `start` at the greatest shortest distance.
pub open spec fn farthest_cell(s: Seq<GridCell>, start: GridPosition, f: GridPosition) -> bool {
    &&& f.valid()
    &&& reachable(empty_cells(s), start, f)
    &&& in_region(empty_cells(s), start, f.0 as int)
    &&& shortest(empty_cells(s), start, f.0 as int) == farthest_distance(s, start)
}

/// The start is at distance zero from itself.
pub proof fn lemma_start_distance(allowed: Seq<bool>, start: GridPosition)
    ensures
        in_region(allowed, start, start.0 as int),
        shortest(allowed, start, start.0 as int) == 0,
{
    lemma_path_start(allowed, start);
    assert(GridPosition(start.0 as usize) == start);
    assert(distance_is(allowed, start, start, 0));
    let c = choose|c: nat| #[trigger] distance_is(allowed, start, start, c);
    lemma_distance_unique(allowed, start, start, c, 0);
}

/// A cell one allowed step from the start is at distance one.
pub proof fn lemma_neighbor_distance(allowed: Seq<bool>, start: GridPosition, n: GridPosition)
    requires
        start.valid(),
        step_ok(allowed, start, n),
    ensures
        in_region(allowed, start, n.0 as int),
        shortest(allowed, start, n.0 as int) == 1,
{
    lemma_adjacent_distinct(start, n);
    lemma_path_start(allowed, start);
    lemma_region_step(allowed, start, start, n);
    lemma_walk_succ(allowed, start, start, n, 0);
    assert(GridPosition(n.0 as usize) == n);
    assert forall|e: nat| #![trigger walk_len(allowed, start, n, e)] e < 1 implies !walk_len(allowed, start, n, e) by {
        if walk_len(allowed, start, n, e) {
            let p = choose|p: Seq<GridPosition>| #[trigger] is_path(allowed, p, start, n) && p.len() == e + 1;
            assert(p[0] == start && p.last() == n);
        }
    }
    assert(distance_is(allowed, start, n, 1));
    let c = choose|c: nat| #[trigger] distance_is(allowed, start, n, c);
    lemma_distance_unique(allowed, start, n, c, 1);
}

/// Where some step from `my` enters an empty cell, a farthest cell of its
/// region is not `my` itself.
pub proof fn lemma_farthest_moves(s: Seq<GridCell>, my: GridPosition, far: GridPosition, d: Direction)
    requires
        s.len() == CELL_COUNT,
        my.valid(),
        far.valid(),
        shortest(empty_cells(s), my, far.0 as int) == farthest_distance(s, my),
        is_farthest_distance(s, my, farthest_distance(s, my)),
        my.moved(d) matches Some(q) && !occupied(s, q),
    ensures
        far != my,
{
    let q = my.moved(d).unwrap();
    assert(my.adjacent(q));
    lemma_adjacent_distinct(my, q);
    assert(GridPosition(q.0 as usize) == q);
    assert(step_ok(empty_cells(s), my, q));
    lemma_neighbor_distance(empty_cells(s), my, q);
    lemma_start_distance(empty_cells(s), my);
    assert(shortest(empty_cells(s), my, q.0 as int) <= farthest_distance(s, my));
}

/// A walk through cells of `a` is one through cells of any larger `b`.
pub proof fn lemma_reachable_mono(a: Seq<bool>, b: Seq<bool>, start: GridPosition, goal: GridPosition)
    requires
        a.len() == CELL_COUNT,
        b.len() == CELL_COUNT,
        forall|i: int| 0 <= i < CELL_COUNT && #[trigger] a[i] ==> b[i],
        reachable(a, start, goal),
    ensures
        reachable(b, start, goal),
{
    let p = choose|p: Seq<GridPosition>| #[trigger] is_path(a, p, start, goal);
    assert forall|k: int| 0 <= k < p.len() - 1 implies #[trigger] step_ok(b, p[k], p[k + 1]) by {
        assert(step_ok(a, p[k], p[k + 1]));
    }
    assert(is_path(b, p, start, goal));
}

/// In a well-formed field no walk through empty cells leads from a head to
/// the other head.
pub proof fn lemma_head_unreachable(s: Seq<GridCell>, me: PlayerId)
    requires
        cells_wf(s),
    ensures
        !reachable(empty_cells(s), head_position(s, me), head_position(s, me.spec_other())),
{
    let my = head_position(s, me);
    let other = head_position(s, me.spec_other());
    lemma_head_index(s, me);
    lemma_head_index(s, me.spec_other());
    if me.0 {
        assert(me == player_o() && me.spec_other() == player_x());
    } else {
        assert(me == player_x() && me.spec_other() == player_o());
    }
    lemma_heads_differ(s);
    if reachable(empty_cells(s), my, other) {
        let p = choose|p: Seq<GridPosition>| #[trigger] is_path(empty_cells(s), p, my, other);
        assert(p[0] != p.last());
        assert(step_ok(empty_cells(s), p[p.len() - 2], p[(p.len() - 2) + 1]));
        assert(GridPosition(other.0 as usize) == other);
        assert(s[other.0 as int] is Head);
    }
}

/// Moving from `from` in direction `d` enters an empty cell from which a walk
/// through empty cells leads to `goal`.
pub open spec fn steps_toward(s: Seq<GridCell>, from: GridPosition, goal: GridPosition, d: Direction) -> bool {
    from.moved(d) matches Some(q) && !occupied(s, q) && reachable(empty_cells(s), q, goal)
}

/// Some cell next to `pos` holds the head of `p`.
pub open spec fn borders_head(s: Seq<GridCell>, pos: GridPosition, p: PlayerId) -> bool {
    exists|q: GridPosition| #![trigger pos.adjacent(q)] pos.adjacent(q) && s[q.0 as int].spec_is_players_head(p)
}

/// A walk through empty cells from the other player's head never passes
/// through this player's head.
pub proof fn lemma_off_walk(s: Seq<GridCell>, me: PlayerId, p: Seq<GridPosition>, goal: GridPosition)
    requires
        cells_wf(s),
        is_path(empty_cells(s), p, head_position(s, me.spec_other()), goal),
    ensures
        !p.contains(head_position(s, me)),
{
    let my = head_position(s, me);
    lemma_head_index(s, me);
    lemma_head_index(s, me.spec_other());
    if me.0 {
        assert(me == player_o() && me.spec_other() == player_x());
    } else {
        assert(me == player_x() && me.spec_other() == player_o());
    }
    lemma_heads_differ(s);
    if p.contains(my) {
        let k = choose|k: int| 0 <= k < p.len() && p[k] == my;
        if k > 0 {
            assert(step_ok(empty_cells(s), p[k - 1], p[(k - 1) + 1]));
            assert(GridPosition(my.0 as usize) == my);
            assert(s[my.0 as int] is Head);
        }
    }
}

/// A walk of `n` steps bounds the distance: the cell is in the region and
/// its shortest distance is at most `n`.
pub proof fn lemma_walk_bounds_distance(m: Seq<bool>, start: GridPosition, q: GridPosition, n: nat)
    requires
        walk_len(m, start, q, n),
    ensures
        in_region(m, start, q.0 as int),
        shortest(m, start, q.0 as int) <= n,
        distance_is(m, start, q, shortest(m, start, q.0 as int) as nat),
    decreases n,
{
    assert(GridPosition(q.0 as usize) == q);
    let p = choose|p: Seq<GridPosition>| #[trigger] is_path(m, p, start, q) && p.len() == n + 1;
    assert(reachable(m, start, q));
    if exists|e: nat| #![trigger walk_len(m, start, q, e)] e < n && walk_len(m, start, q, e) {
        let e = choose|e: nat| #![trigger walk_len(m, start, q, e)] e < n && walk_len(m, start, q, e);
        lemma_walk_bounds_distance(m, start, q, e);
    } else {
        assert(distance_is(m, start, q, n));
        let c = choose|c: nat| #[trigger] distance_is(m, start, q, c);
        lemma_distance_unique(m, start, q, c, n);
    }
}

/// An allowed step followed by a walk of `n` steps is a walk of `n + 1`.
pub proof fn lemma_walk_prepend(m: Seq<bool>, start: GridPosition, q: GridPosition, goal: GridPosition, n: nat)
    requires
        step_ok(m, start, q),
        walk_len(m, q, goal, n),
    ensures
        walk_len(m, start, goal, n + 1),
{
    let p = choose|p: Seq<GridPosition>| #[trigger] is_path(m, p, q, goal) && p.len() == n + 1;
    let w = seq![start] + p;
    assert forall|k: int| 0 <= k < w.len() - 1 implies #[trigger] step_ok(m, w[k], w[k + 1]) by {
        if k > 0 {
            assert(w[k] == p[k - 1] && w[k + 1] == p[(k - 1) + 1]);
            assert(step_ok(m, p[k - 1], p[(k - 1) + 1]));
        }
    }
    assert(is_path(m, w, start, goal) && w.len() == n + 2);
}

/// A walk of `n + 1` steps begins with an allowed step to a cell from which
/// a walk of `n` steps leads on.
pub proof fn lemma_walk_first(m: Seq<bool>, start: GridPosition, goal: GridPosition, n: nat) -> (q: GridPosition)
    requires
        walk_len(m, start, goal, n + 1),
    ensures
        step_ok(m, start, q),
        walk_len(m, q, goal, n),
{
    let p = choose|p: Seq<GridPosition>| #[trigger] is_path(m, p, start, goal) && p.len() == n + 2;
    crate::players::jack_papel_bots::search::lemma_path_tail(m, p, start, goal);
    let q = p[1];
    assert(is_path(m, p.subrange(1, p.len() as int), q, goal) && p.subrange(1, p.len() as int).len() == n + 1);
    q
}

/// Moving from `from` in direction `d` enters an empty cell one step nearer
/// to `goal` along a shortest walk through empty cells.
pub open spec fn steps_shortest_toward(s: Seq<GridCell>, from: GridPosition, goal: GridPosition, d: Direction) -> bool {
    &&& from.moved(d) matches Some(q) && !occupied(s, q) && reachable(empty_cells(s), q, goal) && shortest(
        empty_cells(s),
        q,
        goal.0 as int,
    ) + 1 == shortest(empty_cells(s), from, goal.0 as int)
}

/// The first step of a shortest walk through empty cells from `from` to
/// `goal`: of the steps into empty cells, the one (the first in the order of
/// `Direction::all` on a tie) from which `goal` is nearest.
pub fn shortest_step(from: GridPosition, goal: GridPosition, grid: &Grid) -> (r: Option<Direction>)
    requires
        from.valid(),
        goal.valid(),
        grid@.len() == CELL_COUNT,
    ensures
        r matches Some(d) ==> steps_shortest_toward(grid@, from, goal, d),
        reachable(empty_cells(grid@), from, goal) && goal != from ==> r is Some,
        !reachable(empty_cells(grid@), from, goal) || goal == from ==> r is None,
{
    let ghost m = empty_cells(grid@);
    if from == goal {
        return None;
    }
    let dirs = Direction::all();
    let mut best: Option<(Direction, usize)> = None;
    let mut k: usize = 0;
    while k < 4
        invariant
            from.valid(),
            goal.valid(),
            from != goal,
            grid@.len() == CELL_COUNT,
            m == empty_cells(grid@),
            k <= 4,
            dirs@.len() == 4,
            forall|d: Direction| #[trigger] dirs@.contains(d),
            best matches Some(b) ==> (from.moved(b.0) matches Some(q) && !occupied(grid@, q) && in_region(
                m,
                q,
                goal.0 as int,
            ) && b.1 == shortest(m, q, goal.0 as int)),
            forall|t: int|
                0 <= t < k ==> match from.moved(#[trigger] dirs@[t]) {
                    Some(q) => (!occupied(grid@, q) && in_region(m, q, goal.0 as int)) ==> (best matches Some(b)
                        && b.1 <= shortest(m, q, goal.0 as int)),
                    None => true,
                },
        decreases 4 - k,
    {
        let d = dirs[k];
        match from.after_moved(d) {
            Some(q) => {
                if q.is_empty(grid) {
                    match shortest_distance(q, goal, grid) {
                        Some(dq) => {
                            let better = match best {
                                Some(b) => dq < b.1,
                                None => true,
                            };
                            if better {
                                best = Some((d, dq));
                            }
                        },
                        None => {},
                    }
                }
            },
            None => {},
        }
        k = k + 1;
    }
    proof {
        let big_d = shortest(m, from, goal.0 as int);
        if reachable(m, from, goal) {
            assert(GridPosition(goal.0 as usize) == goal);
            assert(in_region(m, from, goal.0 as int));
            let c = choose|c: nat| #[trigger] distance_is(m, from, goal, c);
            lemma_walk_bounds_distance(m, from, goal, {
                let p = choose|p: Seq<GridPosition>| #[trigger] is_path(m, p, from, goal);
                assert(walk_len(m, from, goal, (p.len() - 1) as nat));
                (p.len() - 1) as nat
            });
            assert(distance_is(m, from, goal, big_d as nat));
            assert(walk_len(m, from, goal, big_d as nat));
            if big_d == 0 {
                let p = choose|p: Seq<GridPosition>| #[trigger] is_path(m, p, from, goal) && p.len() == 0 + 1;
                assert(p[0] == from && p.last() == goal);
            }
            let q1 = lemma_walk_first(m, from, goal, (big_d - 1) as nat);
            lemma_walk_bounds_distance(m, q1, goal, (big_d - 1) as nat);
            let e = choose|e: Direction| #[trigger] from.moved(e) == Some(q1);
            assert(dirs@.contains(e));
            let t = choose|t: int| 0 <= t < dirs@.len() && dirs@[t] == e;
            assert(GridPosition(q1.0 as usize) == q1);
            assert(!occupied(grid@, q1));
            assert(best is Some);
        }
        if best is Some {
            let b = best->0;
            let q = from.moved(b.0)->0;
            assert(GridPosition(q.0 as usize) == q);
            assert(step_ok(m, from, q));
            assert(GridPosition(goal.0 as usize) == goal);
            if q == goal {
                lemma_path_start(m, q);
            }
            assert(reachable(m, q, goal));
            let pq = choose|p: Seq<GridPosition>| #[trigger] is_path(m, p, q, goal);
            assert(walk_len(m, q, goal, (pq.len() - 1) as nat));
            lemma_walk_bounds_distance(m, q, goal, (pq.len() - 1) as nat);
            lemma_walk_prepend(m, from, q, goal, b.1 as nat);
            lemma_walk_bounds_distance(m, from, goal, b.1 as nat + 1);
            assert(reachable(m, from, goal));
        }
    }
    match best {
        Some(b) => Some(b.0),
        None => None,
    }
}

/// Moving from `from` in direction `d` enters a cell allowed by `m`, one
/// step nearer to `goal` along a shortest walk through cells of `m`.
pub open spec fn steps_nearer_in(m: Seq<bool>, from: GridPosition, goal: GridPosition, d: Direction) -> bool {
    &&& from.moved(d) matches Some(q) && m[q.0 as int] && reachable(m, q, goal) && shortest(m, q, goal.0 as int) + 1
        == shortest(m, from, goal.0 as int)
}

/// The first step of a shortest walk from `from` to `goal` through the cells
/// of `allowed`: of the steps into allowed cells, the one (the first in the
/// order of `Direction::all` on a tie) from which `goal` is nearest.
pub fn masked_shortest_step(from: GridPosition, goal: GridPosition, allowed: &Vec<bool>) -> (r: Option<Direction>)
    requires
        from.valid(),
        goal.valid(),
        allowed@.len() == CELL_COUNT,
    ensures
        r matches Some(d) ==> steps_nearer_in(allowed@, from, goal, d),
        reachable(allowed@, from, goal) && goal != from ==> r is Some,
        !reachable(allowed@, from, goal) || goal == from ==> r is None,
{
    let ghost m = allowed@;
    if from == goal {
        return None;
    }
    let dirs = Direction::all();
    let mut best: Option<(Direction, usize)> = None;
    let mut k: usize = 0;
    while k < 4
        invariant
            from.valid(),
            goal.valid(),
            from != goal,
            allowed@.len() == CELL_COUNT,
            m == allowed@,
            k <= 4,
            dirs@.len() == 4,
            forall|d: Direction| #[trigger] dirs@.contains(d),
            best matches Some(b) ==> (from.moved(b.0) matches Some(q) && m[q.0 as int] && in_region(
                m,
                q,
                goal.0 as int,
            ) && b.1 == shortest(m, q, goal.0 as int)),
            forall|t: int|
                0 <= t < k ==> match from.moved(#[trigger] dirs@[t]) {
                    Some(q) => (m[q.0 as int] && in_region(m, q, goal.0 as int)) ==> (best matches Some(b) && b.1
                        <= shortest(m, q, goal.0 as int)),
                    None => true,
                },
        decreases 4 - k,
    {
        let d = dirs[k];
        match from.after_moved(d) {
            Some(q) => {
                if allowed[q.i()] {
                    let mut dists: Vec<u16> = Vec::new();
                    let mut i: usize = 0;
                    while i < CELL_COUNT
                        invariant
                            i <= CELL_COUNT,
                            dists@.len() == i,
                            forall|j: int| 0 <= j < i ==> dists@[j] == u16::MAX,
                        decreases CELL_COUNT - i,
                    {
                        dists.push(u16::MAX);
                        i = i + 1;
                    }
                    crate::players::chatgpt_bots::apex_bot::masked_bfs(allowed, q, &mut dists);
                    let dq = dists[goal.i()];
                    if dq != u16::MAX {
                        let better = match best {
                            Some(b) => (dq as usize) < b.1,
                            None => true,
                        };
                        if better {
                            best = Some((d, dq as usize));
                        }
                    }
                }
            },
            None => {},
        }
        k = k + 1;
    }
    proof {
        let big_d = shortest(m, from, goal.0 as int);
        if reachable(m, from, goal) {
            assert(GridPosition(goal.0 as usize) == goal);
            let p = choose|p: Seq<GridPosition>| #[trigger] is_path(m, p, from, goal);
            assert(walk_len(m, from, goal, (p.len() - 1) as nat));
            lemma_walk_bounds_distance(m, from, goal, (p.len() - 1) as nat);
            assert(walk_len(m, from, goal, big_d as nat));
            if big_d == 0 {
                let p0 = choose|p: Seq<GridPosition>| #[trigger] is_path(m, p, from, goal) && p.len() == 0 + 1;
                assert(p0[0] == from && p0.last() == goal);
            }
            let q1 = lemma_walk_first(m, from, goal, (big_d - 1) as nat);
            lemma_walk_bounds_distance(m, q1, goal, (big_d - 1) as nat);
            let e = choose|e: Direction| #[trigger] from.moved(e) == Some(q1);
            assert(dirs@.contains(e));
            let t = choose|t: int| 0 <= t < dirs@.len() && dirs@[t] == e;
            assert(best is Some);
        }
        if best is Some {
            let b = best->0;
            let q = from.moved(b.0)->0;
            assert(step_ok(m, from, q));
            assert(GridPosition(goal.0 as usize) == goal);
            if q == goal {
                lemma_path_start(m, q);
            }
            assert(reachable(m, q, goal));
            let pq = choose|p: Seq<GridPosition>| #[trigger] is_path(m, p, q, goal);
            assert(walk_len(m, q, goal, (pq.len() - 1) as nat));
            lemma_walk_bounds_distance(m, q, goal, (pq.len() - 1) as nat);
            lemma_walk_prepend(m, from, q, goal, b.1 as nat);
            lemma_walk_bounds_distance(m, from, goal, b.1 as nat + 1);
            assert(reachable(m, from, goal));
        }
    }
    match best {
        Some(b) => Some(b.0),
        None => None,
    }
}

proof fn lemma_max_prefix(s: Seq<GridCell>, my: GridPosition, n: int) -> (r: (bool, int))
    requires
        0 <= n <= CELL_COUNT,
    ensures
        r.0 <==> exists|i: int| 0 <= i < n && #[trigger] in_region(empty_cells(s), my, i),
        r.0 ==> exists|i: int|
            0 <= i < n && #[trigger] in_region(empty_cells(s), my, i) && shortest(empty_cells(s), my, i) == r.1,
        forall|i: int|
            0 <= i < n && in_region(empty_cells(s), my, i) ==> #[trigger] shortest(empty_cells(s), my, i) <= r.1,
    decreases n,
{
    if n == 0 {
        (false, 0)
    } else {
        let prev = lemma_max_prefix(s, my, n - 1);
        let i = n - 1;
        if in_region(empty_cells(s), my, i) {
            if !prev.0 || shortest(empty_cells(s), my, i) > prev.1 {
                (true, shortest(empty_cells(s), my, i))
            } else {
                prev
            }
        } else {
            prev
        }
    }
}

/// The region of a cell has a greatest shortest distance.
pub proof fn lemma_farthest_exists(s: Seq<GridCell>, my: GridPosition)
    requires
        my.valid(),
    ensures
        is_farthest_distance(s, my, farthest_distance(s, my)),
{
    let r = lemma_max_prefix(s, my, CELL_COUNT as int);
    lemma_start_distance(empty_cells(s), my);
    assert(in_region(empty_cells(s), my, my.0 as int));
    assert(is_farthest_distance(s, my, r.1));
}

} // verus!
