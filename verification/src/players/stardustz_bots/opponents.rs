use vstd::prelude::*;

use crate::engine::bot::Bot;
use crate::engine::direction::Direction;
use crate::engine::game_state::GameState;
use crate::engine::player_id::PlayerId;

verus! {

/// A practice opponent that always moves down.
pub struct NegYBot {
    pub player: Ghost<PlayerId>,
}

impl Bot for NegYBot {
    open spec fn plays_as(&self) -> PlayerId {
        self.player@
    }

    fn new(my_player_id: PlayerId) -> Self {
        NegYBot { player: Ghost(my_player_id) }
    }

    fn next_action(&mut self, _game_state: &GameState) -> (r: Direction)
        ensures
            r == Direction::NegativeY,
    {
        Direction::NegativeY
    }
}

/// A practice opponent that always moves up.
pub struct PosYBot {
    pub player: Ghost<PlayerId>,
}

impl Bot for PosYBot {
    open spec fn plays_as(&self) -> PlayerId {
        self.player@
    }

    fn new(my_player_id: PlayerId) -> Self {
        PosYBot { player: Ghost(my_player_id) }
    }

    fn next_action(&mut self, _game_state: &GameState) -> (r: Direction)
        ensures
            r == Direction::PositiveY,
    {
        Direction::PositiveY
    }
}

} // verus!
