//! A two-player light-cycle game on a square grid, its game engine and a
//! collection of computer players.

use vstd::prelude::*;

pub mod clock;
pub mod engine;
pub mod players;
pub mod rand;

use crate::engine::bot::{Bot, BuildBot};
use crate::engine::game_engine::GameEngine;
use crate::engine::GameOver;

verus! {

/// Plays one game between a fresh bot of type `O` and one of type `X`, and
/// returns how it ended.
pub fn run_test_game<O: Bot, X: Bot>() -> (r: GameOver)
    ensures
        exists|e: GameEngine<O, X>| e.game_state.wf() && e.game_state.game_over == Some(r),
{
    let mut engine: GameEngine<O, X> = GameEngine::new(&BuildBot::<O>::new(), &BuildBot::<X>::new(), false);
    let r = engine.run_game_get_result();
    r
}

} // verus!
