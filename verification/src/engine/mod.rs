use vstd::prelude::*;

pub mod direction;
pub mod player_id;
pub mod grid_position;
pub mod grid_cell;
pub mod grid;
pub mod game_state;
pub mod bot;
pub mod game_engine;

use crate::engine::grid::Grid;
use crate::engine::player_id::PlayerId;

verus! {

/// How a finished game ended.
#[derive(Debug, Clone, Copy, PartialEq, Eq, Hash, Structural)]
pub enum GameOver {
    Winner { player_who_won: PlayerId },
    Draw,
}

/// What one step of the game produced: the next frame, or the end of the game.
#[derive(Debug, Clone, PartialEq, Eq)]
pub enum NextFrameResult {
    NextFrame(Grid),
    Winner { player_who_won: PlayerId },
    Draw,
}

impl NextFrameResult {
    /// The end of the game that this result announces, if any.
    pub open spec fn verdict(self) -> Option<GameOver> {
        match self {
            NextFrameResult::NextFrame(_) => None,
            NextFrameResult::Winner { player_who_won } => Some(GameOver::Winner { player_who_won }),
            NextFrameResult::Draw => Some(GameOver::Draw),
        }
    }

    /// The end of the game that this result announces, if any.
    pub fn game_over(&self) -> (r: Option<GameOver>)
        ensures
            r == self.verdict(),
    {
        match self {
            NextFrameResult::NextFrame(_) => None,
            NextFrameResult::Winner { player_who_won } => Some(
                GameOver::Winner { player_who_won: *player_who_won },
            ),
            NextFrameResult::Draw => Some(GameOver::Draw),
        }
    }

    /// The result that announces the given end of the game.
    pub fn from_game_over(game_over: GameOver) -> (r: NextFrameResult)
        ensures
            r.verdict() == Some(game_over),
    {
        match game_over {
            GameOver::Winner { player_who_won } => NextFrameResult::Winner { player_who_won },
            GameOver::Draw => NextFrameResult::Draw,
        }
    }
}

/// How many of a run of games O won, X won, and were drawn.
#[derive(Debug, Clone, Copy, PartialEq, Eq)]
pub struct Tally {
    pub o_wins: u32,
    pub x_wins: u32,
    pub draws: u32,
}

impl Tally {
    /// No game yet.
    pub fn new() -> (r: Tally)
        ensures
            r.o_wins == 0 && r.x_wins == 0 && r.draws == 0,
    {
        Tally { o_wins: 0, x_wins: 0, draws: 0 }
    }

    /// The games counted.
    pub fn total(&self) -> (r: u64)
        ensures
            r == self.o_wins + self.x_wins + self.draws,
    {
        self.o_wins as u64 + self.x_wins as u64 + self.draws as u64
    }

    /// Counts one more game, ended as `g`.
    pub fn record(&mut self, g: GameOver)
        requires
            old(self).o_wins < u32::MAX,
            old(self).x_wins < u32::MAX,
            old(self).draws < u32::MAX,
        ensures
            *final(self) == match g {
                GameOver::Winner { player_who_won } => if player_who_won.spec_is_o() {
                    Tally { o_wins: (old(self).o_wins + 1) as u32, ..*old(self) }
                } else {
                    Tally { x_wins: (old(self).x_wins + 1) as u32, ..*old(self) }
                },
                GameOver::Draw => Tally { draws: (old(self).draws + 1) as u32, ..*old(self) },
            },
    {
        match g {
            GameOver::Winner { player_who_won } => {
                if player_who_won.is_o() {
                    self.o_wins = self.o_wins + 1;
                } else {
                    self.x_wins = self.x_wins + 1;
                }
            },
            GameOver::Draw => {
                self.draws = self.draws + 1;
            },
        }
    }
}

} // verus!
