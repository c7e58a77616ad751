use vstd::prelude::*;

use std::marker::PhantomData;

use crate::engine::direction::Direction;
use crate::engine::game_state::GameState;
use crate::engine::player_id::PlayerId;

verus! {

/// A computer player.
pub trait Bot: Sized {
    /// The player this bot plays as.
    spec fn plays_as(&self) -> PlayerId;

    /// A bot that plays as `my_player_id`.
    fn new(my_player_id: PlayerId) -> (r: Self)
        ensures
            r.plays_as() == my_player_id,
    ;

    /// The direction to move in next, given the game so far.
    fn next_action(&mut self, game_state: &GameState) -> Direction
        requires
            game_state.wf(),
    ;
}

/// Something that makes bots for either player.
pub trait BotFactory {
    type Generated: BotActionGenerator;

    /// A bot that plays as `my_player_id`.
    fn new_bot(&self, my_player_id: PlayerId) -> (r: Self::Generated)
        ensures
            r.acting_player() == my_player_id,
    ;
}

/// Something that chooses moves.
pub trait BotActionGenerator {
    /// The player whose moves this chooses.
    spec fn acting_player(&self) -> PlayerId;

    fn generate_next_action(&mut self, game_state: &GameState) -> Direction
        requires
            game_state.wf(),
    ;
}

impl<B: Bot> BotActionGenerator for B {
    open spec fn acting_player(&self) -> PlayerId {
        self.plays_as()
    }

    fn generate_next_action(&mut self, game_state: &GameState) -> Direction {
        self.next_action(game_state)
    }
}

/// The factory of bots of type `B`.
pub struct BuildBot<B: Bot> {
    _marker: PhantomData<B>,
}

impl<B: Bot> BuildBot<B> {
    pub fn new() -> Self {
        BuildBot { _marker: PhantomData }
    }
}

impl<B: Bot> BotFactory for BuildBot<B> {
    type Generated = B;

    fn new_bot(&self, my_player_id: PlayerId) -> B {
        B::new(my_player_id)
    }
}

} // verus!
