use vstd::prelude::*;

use crate::engine::bot::Bot;
use crate::engine::direction::Direction;
use crate::engine::game_state::GameState;
use crate::engine::player_id::PlayerId;
use crate::players::moves::{
    calm_directions, cautious_choice, cautious_direction, ideal_directions as calm_moves,
    not_instant_crash_directions as safe_moves, safe_directions,
};

verus! {

/// Moves to a free cell, preferring cells that are not next to the other
/// player's head.
pub struct ExampleBot {
    pub my_player_id: PlayerId,
}

impl Bot for ExampleBot {
    open spec fn plays_as(&self) -> PlayerId {
        self.my_player_id
    }

    fn new(my_player_id: PlayerId) -> (r: Self)
        ensures
            r.my_player_id == my_player_id,
    {
        ExampleBot { my_player_id }
    }

    fn next_action(&mut self, game_state: &GameState) -> (r: Direction)
        ensures
            r == cautious_choice(game_state.current(), old(self).my_player_id),
    {
        cautious_direction(game_state.current_grid(), self.my_player_id)
    }
}

impl ExampleBot {
    /// The directions in which this bot can move without crashing at once.
    pub fn not_instant_crash_directions(&self, game_state: &GameState) -> (r: Vec<Direction>)
        requires
            game_state.wf(),
        ensures
            r@ == safe_directions(game_state.current(), self.my_player_id),
    {
        safe_moves(game_state.current_grid(), self.my_player_id)
    }

    /// The safe directions that do not end next to the other player's head.
    pub fn ideal_directions(&self, game_state: &GameState) -> (r: Vec<Direction>)
        requires
            game_state.wf(),
        ensures
            r@ == calm_directions(game_state.current(), self.my_player_id),
    {
        calm_moves(game_state.current_grid(), self.my_player_id)
    }
}

} // verus!
