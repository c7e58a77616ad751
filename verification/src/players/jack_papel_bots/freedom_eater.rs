use vstd::prelude::*;

use crate::players::jack_papel_bots::JackBot;

use crate::engine::bot::Bot;
use crate::engine::direction::Direction;
use crate::engine::game_state::GameState;
use crate::engine::grid_position::{GridPosition, CELL_COUNT};
use crate::players::chatgpt_bots::apex_bot::shortest;
use crate::players::regions::in_region;
use crate::engine::player_id::PlayerId;
use crate::players::jack_papel_bots::search::reachable;
use crate::engine::grid::{head_position, occupied};
use crate::engine::grid_cell::GridCell;
use crate::players::jack_papel_bots::{
    can_step, empty_cells, farthest_cell, farthest_distance, find_farthest_point, lemma_farthest_exists,
    lemma_farthest_moves, shortest_step, steps_shortest_toward,
};
use crate::players::moves::{cautious_choice, cautious_direction, safe_step};

verus! {

/// What `FreedomEater` may answer for `me` on the field `s`: for some
/// farthest cell `f` of its region, the first step of a shortest walk to
/// `f`, or the cautious choice where `f` is its own head.
pub open spec fn freedom_move(s: Seq<GridCell>, me: PlayerId, r: Direction) -> bool {
    let my = head_position(s, me);
    exists|f: GridPosition|
        #[trigger] farthest_cell(s, my, f) && if f != my {
            steps_shortest_toward(s, my, f, r)
        } else {
            r == cautious_choice(s, me)
        }
}

/// Where its head can step at all, a move allowed to `FreedomEater` enters an
/// empty cell from which some farthest cell of its region is one step nearer
/// than it was: at the greatest distance of the region less one.
pub proof fn lemma_freedom_nears(s: Seq<GridCell>, me: PlayerId, r: Direction)
    requires
        s.len() == CELL_COUNT,
        head_position(s, me).valid(),
        freedom_move(s, me, r),
        can_step(s, head_position(s, me)),
    ensures
        head_position(s, me).moved(r) matches Some(q) && !occupied(s, q) && exists|f: GridPosition|
            #[trigger] farthest_cell(s, head_position(s, me), f) && shortest(empty_cells(s), q, f.0 as int) + 1
                == farthest_distance(s, head_position(s, me)),
{
    let my = head_position(s, me);
    let f = choose|f: GridPosition|
        #[trigger] farthest_cell(s, my, f) && if f != my {
            steps_shortest_toward(s, my, f, r)
        } else {
            r == cautious_choice(s, me)
        };
    let d = choose|d: Direction| #[trigger] my.moved(d) matches Some(q) && !occupied(s, q);
    lemma_farthest_exists(s, my);
    lemma_farthest_moves(s, my, f, d);
}

/// Heads for the cell of its region that lies farthest away, so that it
/// keeps as much room as it can.
pub struct FreedomEater {
    pub my_player_id: PlayerId,
}

impl Bot for FreedomEater {
    open spec fn plays_as(&self) -> PlayerId {
        self.my_player_id
    }

    fn new(my_player_id: PlayerId) -> (r: Self)
        ensures
            r.my_player_id == my_player_id,
    {
        FreedomEater { my_player_id }
    }

    /// The first step of a shortest walk through empty cells to a farthest
    /// cell of its region, or a cautious move where that cell is its own head.
    fn next_action(&mut self, game_state: &GameState) -> (r: Direction)
        ensures
            safe_step(game_state.current(), old(self).my_player_id, r) || r == cautious_choice(
                game_state.current(),
                old(self).my_player_id,
            ),
            freedom_move(game_state.current(), old(self).my_player_id, r),
    {
        let grid = game_state.current_grid();
        let start = grid.player_head_position(self.my_player_id);
        let farthest_point = self.find_farthest_point(start, game_state);
        proof {
            assert(farthest_cell(grid@, start, farthest_point));
        }
        if let Some(d) = shortest_step(start, farthest_point, grid) {
            return d;
        }
        cautious_direction(grid, self.my_player_id)
    }
}

impl FreedomEater {
    /// A cell reachable from `start` through empty cells at the greatest
    /// shortest distance from it.
    pub fn find_farthest_point(&self, start: GridPosition, game_state: &GameState) -> (r: GridPosition)
        requires
            game_state.wf(),
            start.valid(),
        ensures
            r.valid(),
            reachable(empty_cells(game_state.current()), start, r),
            forall|i: int|
                0 <= i < CELL_COUNT && in_region(empty_cells(game_state.current()), start, i) ==> #[trigger] shortest(
                    empty_cells(game_state.current()),
                    start,
                    i,
                ) <= shortest(empty_cells(game_state.current()), start, r.0 as int),
            farthest_cell(game_state.current(), start, r),
    {
        find_farthest_point(start, game_state.current_grid()).1
    }
}

impl JackBot for FreedomEater {
    open spec fn player(&self) -> PlayerId {
        self.my_player_id
    }

    fn my_player_id(&self) -> (r: PlayerId) {
        self.my_player_id
    }
}

} // verus!
