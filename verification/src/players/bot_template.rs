use vstd::prelude::*;

use crate::engine::bot::Bot;
use crate::engine::direction::Direction;
use crate::engine::game_state::GameState;
use crate::engine::player_id::PlayerId;

verus! {

/// A starting point for a new bot: always moves right.
pub struct BotTemplate {
    pub my_player_id: PlayerId,
}

impl Bot for BotTemplate {
    open spec fn plays_as(&self) -> PlayerId {
        self.my_player_id
    }

    fn new(my_player_id: PlayerId) -> (r: Self)
        ensures
            r.my_player_id == my_player_id,
    {
        BotTemplate { my_player_id }
    }

    fn next_action(&mut self, _game_state: &GameState) -> (r: Direction)
        ensures
            r == Direction::PositiveX,
    {
        Direction::PositiveX
    }
}

} // verus!
