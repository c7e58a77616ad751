use vstd::prelude::*;

use crate::engine::direction::{counterclockwise, Direction};
use crate::engine::grid::{head_position, occupied, Grid};
use crate::engine::grid_cell::GridCell;
use crate::engine::grid_position::GridPosition;
use crate::engine::player_id::PlayerId;

verus! {

/// Moving `p` in direction `d` stays on the field and enters an empty cell.
pub open spec fn safe_step(s: Seq<GridCell>, p: PlayerId, d: Direction) -> bool {
    head_position(s, p).moved(d) matches Some(q) && !occupied(s, q)
}

/// Some cell one step away from `q` holds the head of `p`.
pub open spec fn next_to_head(s: Seq<GridCell>, q: GridPosition, p: PlayerId) -> bool {
    exists|n: GridPosition|
        #![trigger q.adjacent(n)]
        q.adjacent(n) && s[n.0 as int].spec_is_players_head(p)
}

/// A safe step of `p` that also does not end next to the other player's
/// head (where both could move onto the same cell).
pub open spec fn calm_step(s: Seq<GridCell>, p: PlayerId, d: Direction) -> bool {
    &&& safe_step(s, p, d)
    &&& !next_to_head(s, head_position(s, p).moved(d).unwrap(), p.spec_other())
}

/// The directions, in the order of `Direction::all()`, in which `p` can move
/// without crashing at once.
pub open spec fn safe_directions(s: Seq<GridCell>, p: PlayerId) -> Seq<Direction> {
    counterclockwise().filter(|d: Direction| safe_step(s, p, d))
}

/// The directions, in the order of `Direction::all()`, in which `p` can move
/// without crashing and without ending next to the other head.
pub open spec fn calm_directions(s: Seq<GridCell>, p: PlayerId) -> Seq<Direction> {
    counterclockwise().filter(|d: Direction| calm_step(s, p, d))
}

/// The move a cautious bot makes: the first calm direction, else the first
/// safe direction, else left.
pub open spec fn cautious_choice(s: Seq<GridCell>, p: PlayerId) -> Direction {
    if calm_directions(s, p).len() > 0 {
        calm_directions(s, p)[0]
    } else if safe_directions(s, p).len() > 0 {
        safe_directions(s, p)[0]
    } else {
        Direction::NegativeX
    }
}

/// The directions in which `me` can move without crashing at once, in the
/// order of `Direction::all()`.
pub fn not_instant_crash_directions(grid: &Grid, me: PlayerId) -> (r: Vec<Direction>)
    requires
        grid.wf(),
    ensures
        r@ == safe_directions(grid@, me),
{
    let my_pos = grid.player_head_position(me);
    let dirs = Direction::all();
    let mut r: Vec<Direction> = Vec::new();
    let mut k: usize = 0;
    while k < 4
        invariant
            grid.wf(),
            my_pos == head_position(grid@, me),
            my_pos.valid(),
            dirs@ == counterclockwise(),
            k <= 4,
            r@ == counterclockwise().take(k as int).filter(|d: Direction| safe_step(grid@, me, d)),
        decreases 4 - k,
    {
        let d = dirs[k];
        proof {
            assert(counterclockwise().take(k + 1) =~= counterclockwise().take(k as int).push(d));
            counterclockwise().take(k as int).lemma_filter_push(
                d,
                |d: Direction| safe_step(grid@, me, d),
            );
        }
        match my_pos.after_moved(d) {
            Some(p) => {
                if p.is_empty(grid) {
                    r.push(d);
                }
            },
            None => {},
        }
        k = k + 1;
    }
    assert(counterclockwise().take(4) =~= counterclockwise());
    r
}

/// The directions in which `me` can move without crashing and without ending
/// next to the other player's head, in the order of `Direction::all()`.
pub fn ideal_directions(grid: &Grid, me: PlayerId) -> (r: Vec<Direction>)
    requires
        grid.wf(),
    ensures
        r@ == calm_directions(grid@, me),
{
    let my_pos = grid.player_head_position(me);
    let other = me.other();
    let dirs = Direction::all();
    let mut r: Vec<Direction> = Vec::new();
    let mut k: usize = 0;
    while k < 4
        invariant
            grid.wf(),
            my_pos == head_position(grid@, me),
            my_pos.valid(),
            other == me.spec_other(),
            dirs@ == counterclockwise(),
            k <= 4,
            r@ == counterclockwise().take(k as int).filter(|d: Direction| calm_step(grid@, me, d)),
        decreases 4 - k,
    {
        let d = dirs[k];
        proof {
            assert(counterclockwise().take(k + 1) =~= counterclockwise().take(k as int).push(d));
            counterclockwise().take(k as int).lemma_filter_push(
                d,
                |d: Direction| calm_step(grid@, me, d),
            );
        }
        match my_pos.after_moved(d) {
            Some(p) => {
                if p.is_empty(grid) && !p.borders_players_head(grid, other) {
                    r.push(d);
                }
            },
            None => {},
        }
        k = k + 1;
    }
    assert(counterclockwise().take(4) =~= counterclockwise());
    r
}

/// The first calm direction, else the first safe one, else left.
pub fn cautious_direction(grid: &Grid, me: PlayerId) -> (r: Direction)
    requires
        grid.wf(),
    ensures
        r == cautious_choice(grid@, me),
{
    let ideal = ideal_directions(grid, me);
    if ideal.len() > 0 {
        return ideal[0];
    }
    let safe = not_instant_crash_directions(grid, me);
    if safe.len() > 0 {
        return safe[0];
    }
    Direction::NegativeX
}

/// Every safe direction is listed among the safe directions.
pub proof fn lemma_safe_listed(s: Seq<GridCell>, p: PlayerId, d: Direction)
    requires
        safe_step(s, p, d),
    ensures
        safe_directions(s, p).contains(d),
{
    broadcast use vstd::seq_lib::group_filter_ensures;

    assert(counterclockwise().contains(d)) by {
        match d {
            Direction::PositiveX => assert(counterclockwise()[0] == d),
            Direction::PositiveY => assert(counterclockwise()[1] == d),
            Direction::NegativeX => assert(counterclockwise()[2] == d),
            Direction::NegativeY => assert(counterclockwise()[3] == d),
        }
    }
}

/// Where some step of `p` is safe, the cautious choice is a safe step.
pub proof fn lemma_cautious_safe(s: Seq<GridCell>, p: PlayerId, d: Direction)
    requires
        safe_step(s, p, d),
    ensures
        safe_step(s, p, cautious_choice(s, p)),
{
    broadcast use vstd::seq_lib::group_filter_ensures;

    assert(counterclockwise().contains(d)) by {
        match d {
            Direction::PositiveX => assert(counterclockwise()[0] == d),
            Direction::PositiveY => assert(counterclockwise()[1] == d),
            Direction::NegativeX => assert(counterclockwise()[2] == d),
            Direction::NegativeY => assert(counterclockwise()[3] == d),
        }
    }
    assert(safe_directions(s, p).contains(d));
    if calm_directions(s, p).len() > 0 {
        assert(calm_directions(s, p).contains(calm_directions(s, p)[0]));
    } else {
        assert(safe_directions(s, p).contains(safe_directions(s, p)[0]));
    }
}

} // verus!
