use vstd::prelude::*;

use crate::engine::bot::Bot;
use crate::engine::direction::Direction;
use crate::engine::game_state::GameState;
use crate::engine::grid::{head_position, occupied, Grid};
use crate::engine::grid_position::{GridPosition, CELL_COUNT};
use crate::engine::player_id::PlayerId;
use crate::engine::grid_cell::GridCell;
use crate::players::chatgpt_bots::apex_bot::shortest;
use crate::players::jack_papel_bots::search::reachable;
use crate::players::jack_papel_bots::{can_step, empty_cells, masked_shortest_step, steps_nearer_in};
use crate::players::jack_papel_bots::search::empty_mask;
use crate::players::moves::{
    calm_step, next_to_head,
    calm_directions, ideal_directions, lemma_safe_listed, not_instant_crash_directions, safe_directions, safe_step,
};

verus! {

/// The empty cells of `s`, and the cell of `goal`.
pub open spec fn goal_cells(s: Seq<GridCell>, goal: GridPosition) -> Seq<bool> {
    empty_cells(s).update(goal.0 as int, true)
}

/// The first step of a shortest walk from `from` to `goal` through empty
/// cells, the walk being allowed to end on `goal` even where `goal` is taken.
pub fn a_star_direction(grid: &Grid, from: GridPosition, goal: GridPosition) -> (r: Option<Direction>)
    requires
        grid@.len() == CELL_COUNT,
        from.valid(),
        goal.valid(),
    ensures
        r matches Some(d) ==> (from.moved(d) matches Some(q) && (!occupied(grid@, q) || q == goal)),
        r matches Some(d) ==> (from.moved(d) matches Some(q) && reachable(goal_cells(grid@, goal), q, goal)),
        r matches Some(d) ==> steps_nearer_in(goal_cells(grid@, goal), from, goal, d),
        reachable(goal_cells(grid@, goal), from, goal) && goal != from ==> r is Some,
        !reachable(goal_cells(grid@, goal), from, goal) ==> r is None,
{
    let mut mask = empty_mask(grid);
    mask.set(goal.i(), true);
    assert(mask@ =~= goal_cells(grid@, goal));
    let r = masked_shortest_step(from, goal, &mask);
    proof {
        if r is Some {
            let q = from.moved(r->0)->0;
            if q != goal {
                assert(GridPosition(q.0 as usize) == q);
            }
        }
    }
    r
}

/// What `ChaseBot` may answer for `me` on the field `s`. Where a walk leads
/// to the other head, a first step of a shortest such walk; only where some
/// such first step lands on the one cell the other player can still move to
/// safely, the first calm step instead; and never a step onto that one cell
/// while a calm step exists. Where no walk leads there, the first safe step,
/// or left where there is none.
pub open spec fn chase_move(s: Seq<GridCell>, me: PlayerId, r: Direction) -> bool {
    let my = head_position(s, me);
    let goal = head_position(s, me.spec_other());
    let gc = goal_cells(s, goal);
    if reachable(gc, my, goal) {
        &&& !(safe_directions(s, me.spec_other()).len() == 1 && calm_directions(s, me).len() > 0 && my.moved(r)
            == goal.moved(safe_directions(s, me.spec_other())[0]))
        &&& {
            ||| steps_nearer_in(gc, my, goal, r)
            ||| (safe_directions(s, me.spec_other()).len() == 1 && calm_directions(s, me).len() > 0 && r
                == calm_directions(s, me)[0] && exists|a: Direction|
                #[trigger] steps_nearer_in(gc, my, goal, a) && my.moved(a) == goal.moved(
                    safe_directions(s, me.spec_other())[0],
                ))
        }
    } else if safe_directions(s, me).len() > 0 {
        r == safe_directions(s, me)[0]
    } else {
        r == Direction::NegativeX
    }
}

/// Unless the other player is down to one safe step, a move allowed to
/// `ChaseBot` while a walk leads to the other head brings its head one step
/// nearer to it: the distance through empty cells (ending on the head)
/// falls by one.
pub proof fn lemma_chase_closes_in(s: Seq<GridCell>, me: PlayerId, r: Direction)
    requires
        chase_move(s, me, r),
        reachable(goal_cells(s, head_position(s, me.spec_other())), head_position(s, me), head_position(s, me.spec_other())),
        safe_directions(s, me.spec_other()).len() != 1,
    ensures
        head_position(s, me).moved(r) matches Some(q) && shortest(
            goal_cells(s, head_position(s, me.spec_other())),
            q,
            head_position(s, me.spec_other()).0 as int,
        ) + 1 == shortest(
            goal_cells(s, head_position(s, me.spec_other())),
            head_position(s, me),
            head_position(s, me.spec_other()).0 as int,
        ),
{
}

/// While a walk leads to the other head and a calm step exists, a move
/// allowed to `ChaseBot` never takes the one cell the other player can still
/// move to safely.
pub proof fn lemma_chase_spares_last_cell(s: Seq<GridCell>, me: PlayerId, r: Direction)
    requires
        chase_move(s, me, r),
        reachable(goal_cells(s, head_position(s, me.spec_other())), head_position(s, me), head_position(s, me.spec_other())),
        safe_directions(s, me.spec_other()).len() == 1,
        calm_directions(s, me).len() > 0,
    ensures
        head_position(s, me).moved(r) != head_position(s, me.spec_other()).moved(safe_directions(s, me.spec_other())[0]),
{
}

/// The cell `player` must move to when exactly one of its steps is safe;
/// `None` when it has no safe step or several.
pub fn only_safe_cell(grid: &Grid, player: PlayerId) -> (r: Option<GridPosition>)
    requires
        grid.wf(),
    ensures
        r is Some <==> safe_directions(grid@, player).len() == 1,
        r matches Some(q) ==> head_position(grid@, player).moved(safe_directions(grid@, player)[0]) == Some(q),
{
    let safe = not_instant_crash_directions(grid, player);
    if safe.len() == 1 {
        let pos = grid.player_head_position(player);
        let d = safe[0];
        proof {
            assert(safe_directions(grid@, player).contains(d));
            broadcast use vstd::seq_lib::group_filter_ensures;
        }
        pos.after_moved(d)
    } else {
        None
    }
}

/// Chases the other head along a shortest walk, but steers away when it is
/// about to take the one cell the other player can still move to.
pub struct ChaseBot {
    pub my_player_id: PlayerId,
}

impl Bot for ChaseBot {
    open spec fn plays_as(&self) -> PlayerId {
        self.my_player_id
    }

    fn new(my_player_id: PlayerId) -> (r: Self)
        ensures
            r.my_player_id == my_player_id,
    {
        ChaseBot { my_player_id }
    }

    /// A safe step or a step onto the other head; left only where no step
    /// enters an empty cell. Where no walk leads to the other head, the first
    /// safe step (left where there is none); where one does, a calm step or
    /// the first step of such a walk.
    fn next_action(&mut self, game_state: &GameState) -> (r: Direction)
        ensures
            safe_step(game_state.current(), old(self).my_player_id, r) || head_position(
                game_state.current(),
                old(self).my_player_id,
            ).moved(r) == Some(head_position(game_state.current(), old(self).my_player_id.spec_other())) || (r
                == Direction::NegativeX && !can_step(
                game_state.current(),
                head_position(game_state.current(), old(self).my_player_id),
            )),
            ({
                let s = game_state.current();
                let me = old(self).my_player_id;
                let my = head_position(s, me);
                let goal = head_position(s, me.spec_other());
                if reachable(goal_cells(s, goal), my, goal) {
                    calm_directions(s, me).contains(r) || (my.moved(r) matches Some(q) && reachable(
                        goal_cells(s, goal),
                        q,
                        goal,
                    ))
                } else if safe_directions(s, me).len() > 0 {
                    r == safe_directions(s, me)[0]
                } else {
                    r == Direction::NegativeX
                }
            }),
            chase_move(game_state.current(), old(self).my_player_id, r),
    {
        let grid = game_state.current_grid();
        let me = self.my_player_id;
        let my_pos = me.get_head_pos(grid);
        let enemy_pos = me.other().get_head_pos(grid);
        let agro_direction = match a_star_direction(grid, my_pos, enemy_pos) {
            Some(d) => d,
            None => {
                let safe = not_instant_crash_directions(grid, me);
                proof {
                    broadcast use vstd::seq_lib::group_filter_ensures;
                    if safe@.len() > 0 {
                        assert(safe_directions(grid@, me).contains(safe@[0]));
                    }
                }
                if safe.len() > 0 {
                    return safe[0];
                }
                proof {
                    if can_step(grid@, my_pos) {
                        let e = choose|e: Direction| #[trigger] my_pos.moved(e) matches Some(q) && !occupied(grid@, q);
                        lemma_safe_listed(grid@, me, e);
                    }
                }
                return Direction::NegativeX;
            },
        };
        if my_pos.after_moved(agro_direction) == only_safe_cell(grid, me.other()) {
            let calm = ideal_directions(grid, me);
            proof {
                broadcast use vstd::seq_lib::group_filter_ensures;
                if calm@.len() > 0 {
                    assert(calm_directions(grid@, me).contains(calm@[0]));
                }
            }
            if calm.len() > 0 {
                proof {
                    assert(calm@.contains(calm@[0]));
                    assert(steps_nearer_in(goal_cells(grid@, enemy_pos), my_pos, enemy_pos, agro_direction));
                    let other = me.spec_other();
                    let sd = safe_directions(grid@, other);
                    if sd.len() == 1 {
                        let c = enemy_pos.moved(sd[0])->0;
                        assert(sd.contains(sd[0]));
                        assert(enemy_pos.moved(sd[0]) is Some);
                        crate::players::regions::lemma_adjacent_sym(enemy_pos, c);
                        crate::engine::grid::lemma_head_index(grid@, other);
                        assert(grid@[enemy_pos.0 as int].spec_is_players_head(other));
                        assert(next_to_head(grid@, c, other));
                        assert(calm_step(grid@, me, calm@[0]));
                        assert(my_pos.moved(calm@[0]) != Some(c));
                    }
                }
                return calm[0];
            }
        }
        agro_direction
    }
}

} // verus!
