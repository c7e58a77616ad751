use vstd::prelude::*;

use crate::engine::bot::{BotActionGenerator, BotFactory};
use crate::engine::direction::Direction;
use crate::engine::game_state::GameState;
use crate::engine::grid::{advanced, count_empty, frame_verdict, lemma_advance_wf, player_o, player_x, starting_cells};
use crate::engine::grid_cell::GridCell;
use crate::engine::player_id::PlayerId;
use crate::engine::{GameOver, NextFrameResult};

verus! {

/// A game between two bots.
pub struct GameEngine<O: BotActionGenerator, X: BotActionGenerator> {
    pub game_state: GameState,
    pub o: O,
    pub x: X,
    pub debug_mode: bool,
}

/// `next` is `prev` after one frame in which O moved in direction `oc` and X in
/// direction `xc`, and `r` is what that frame produced.
pub open spec fn frame_played(
    prev: GameState,
    next: GameState,
    oc: Direction,
    xc: Direction,
    r: NextFrameResult,
) -> bool {
    if prev.game_over is Some {
        r.verdict() == prev.game_over && next == prev
    } else {
        &&& r.verdict() == frame_verdict(prev.current(), oc, xc)
        &&& next.game_over == r.verdict()
        &&& r matches NextFrameResult::NextFrame(g) ==> g@ == advanced(
            prev.current(),
            oc,
            xc,
            prev.history().len() as usize,
        ) && next.history() == prev.history().push(g@)
        &&& r.verdict() is Some ==> next.history() == prev.history()
    }
}

/// The number of results among `rs` that announce a new frame.
pub open spec fn frames_generated(rs: Seq<NextFrameResult>) -> nat
    decreases rs.len(),
{
    if rs.len() == 0 {
        0
    } else {
        frames_generated(rs.drop_last()) + if rs.last() is NextFrame {
            1nat
        } else {
            0nat
        }
    }
}

/// The field of the last new frame announced among `rs`, or the starting
/// field where there is none.
pub open spec fn latest_frame(rs: Seq<NextFrameResult>) -> Seq<GridCell>
    decreases rs.len(),
{
    if rs.len() == 0 {
        starting_cells()
    } else {
        match rs.last() {
            NextFrameResult::NextFrame(g) => g@,
            _ => latest_frame(rs.drop_last()),
        }
    }
}

/// `states` are the states of a game from its start: the first is a new
/// game (see `GameState::new`), and each later one follows the one before it
/// by one call of `GameState::go_to_next_frame` with the moves `moves[i]`,
/// which answered `rs[i]`.
pub open spec fn played_from_start(
    states: Seq<GameState>,
    moves: Seq<(Direction, Direction)>,
    rs: Seq<NextFrameResult>,
) -> bool {
    &&& states.len() == rs.len() + 1
    &&& moves.len() == rs.len()
    &&& states[0].history() == seq![starting_cells()]
    &&& states[0].game_over is None
    &&& forall|i: int|
        0 <= i < rs.len() ==> #[trigger] frame_played(states[i], states[i + 1], moves[i].0, moves[i].1, rs[i])
}

/// Over a game played from its start, after `k` calls: the time (the
/// history's length less one) counts the new frames announced, the first
/// frame is the starting field, frames once recorded never change, and the
/// current field is the last new frame announced.
pub proof fn lemma_game_history(
    states: Seq<GameState>,
    moves: Seq<(Direction, Direction)>,
    rs: Seq<NextFrameResult>,
    k: int,
)
    requires
        played_from_start(states, moves, rs),
        0 <= k <= rs.len(),
    ensures
        states[k].history().len() == frames_generated(rs.take(k)) + 1,
        states[k].history()[0] == starting_cells(),
        forall|i: int| 0 <= i <= k ==> (#[trigger] states[i].history()).len() <= states[k].history().len(),
        forall|i: int, t: int|
            #![trigger states[i].history()[t]]
            0 <= i <= k && 0 <= t < states[i].history().len() ==> states[k].history()[t] == states[i].history()[t],
        states[k].current() == latest_frame(rs.take(k)),
    decreases k,
{
    let h = states[k].history();
    assert(h.len() == states[k].grid_history@.len());
    if k == 0 {
        assert(rs.take(0) =~= Seq::<NextFrameResult>::empty());
        assert(h[0] == states[0].grid_history@[0]@);
    } else {
        lemma_game_history(states, moves, rs, k - 1);
        let prev = states[k - 1];
        assert(frame_played(states[k - 1], states[(k - 1) + 1], moves[k - 1].0, moves[k - 1].1, rs[k - 1]));
        assert(rs.take(k).drop_last() =~= rs.take(k - 1));
        assert(rs.take(k).last() == rs[k - 1]);
        let hp = prev.history();
        if rs[k - 1] is NextFrame {
            assert(h == hp.push(rs[k - 1]->NextFrame_0@));
        } else {
            assert(h == hp);
        }
        assert forall|i: int| 0 <= i <= k implies (#[trigger] states[i].history()).len() <= states[k].history().len() by {
            if i < k {
                assert(states[i].history().len() <= states[k - 1].history().len());
            }
        }
        assert forall|i: int, t: int|
            #![trigger states[i].history()[t]]
            0 <= i <= k && 0 <= t < states[i].history().len() implies states[k].history()[t]
                == states[i].history()[t] by {
            if i < k {
                assert(states[i].history().len() <= states[k - 1].history().len());
                assert(states[k - 1].history()[t] == states[i].history()[t]);
            }
        }
        assert(prev.current() == hp[hp.len() - 1]) by {
            assert(hp.len() == prev.grid_history@.len());
        }
    }
    assert(states[k].current() == h[h.len() - 1]);
}

impl<O: BotActionGenerator, X: BotActionGenerator> GameEngine<O, X> {
    /// A new game between a bot of `o` playing O and a bot of `x` playing X.
    pub fn new<FO: BotFactory<Generated = O>, FX: BotFactory<Generated = X>>(
        o: &FO,
        x: &FX,
        debug_mode: bool,
    ) -> (r: Self)
        ensures
            r.game_state.wf(),
            r.game_state.game_over is None,
            r.game_state.history().len() == 1,
            r.game_state.history() == seq![starting_cells()],
            r.debug_mode == debug_mode,
            r.o.acting_player() == player_o(),
            r.x.acting_player() == player_x(),
    {
        GameEngine {
            game_state: GameState::new(),
            o: o.new_bot(PlayerId::new_o()),
            x: x.new_bot(PlayerId::new_x()),
            debug_mode,
        }
    }

    /// The state of the game.
    pub fn game_state(&self) -> (r: &GameState)
        ensures
            *r == self.game_state,
    {
        &self.game_state
    }

    /// Asks both bots for their moves and plays them (see
    /// `GameState::go_to_next_frame`).
    pub fn go_to_next_frame(&mut self) -> (r: NextFrameResult)
        requires
            old(self).game_state.wf(),
        ensures
            final(self).game_state.wf(),
            final(self).debug_mode == old(self).debug_mode,
            exists|oc: Direction, xc: Direction|
                frame_played(old(self).game_state, final(self).game_state, oc, xc, r),
    {
        let a_action = self.o.generate_next_action(&self.game_state);
        let b_action = self.x.generate_next_action(&self.game_state);
        let r = self.play_frame(Some(a_action), Some(b_action));
        assert(frame_played(old(self).game_state, self.game_state, a_action, b_action, r));
        r
    }

    /// Plays one frame with the moves the bots gave, where `None` stands for
    /// a bot that failed to give one: where both failed the game is a draw,
    /// where either failed X is named the winner, and the state is left as
    /// it was; otherwise the moves are played (see
    /// `GameState::go_to_next_frame`).
    pub fn play_frame(&mut self, o_action: Option<Direction>, x_action: Option<Direction>) -> (r: NextFrameResult)
        requires
            old(self).game_state.wf(),
        ensures
            final(self).game_state.wf(),
            final(self).debug_mode == old(self).debug_mode,
            final(self).o == old(self).o,
            final(self).x == old(self).x,
            match (o_action, x_action) {
                (None, None) => r == NextFrameResult::Draw && final(self).game_state == old(self).game_state,
                (None, Some(_)) | (Some(_), None) => r == (NextFrameResult::Winner {
                    player_who_won: player_x(),
                }) && final(self).game_state == old(self).game_state,
                (Some(oc), Some(xc)) => frame_played(old(self).game_state, final(self).game_state, oc, xc, r),
            },
    {
        match (o_action, x_action) {
            (None, None) => NextFrameResult::Draw,
            (None, Some(_)) => NextFrameResult::Winner { player_who_won: PlayerId::new_x() },
            (Some(_), None) => NextFrameResult::Winner { player_who_won: PlayerId::new_x() },
            (Some(oc), Some(xc)) => self.game_state.go_to_next_frame(oc, xc),
        }
    }

    /// Plays until the game is over and returns how it ended. Every frame
    /// uses up two empty cells, so this always terminates.
    pub fn run_game_get_result(&mut self) -> (r: GameOver)
        requires
            old(self).game_state.wf(),
        ensures
            final(self).game_state.wf(),
            final(self).game_state.game_over == Some(r),
            old(self).game_state.game_over matches Some(g) ==> r == g && final(self).game_state == old(
                self,
            ).game_state,
    {
        loop
            invariant
                self.game_state.wf(),
                old(self).game_state.game_over is Some ==> self.game_state == old(self).game_state,
            decreases count_empty(self.game_state.current()),
        {
            let ghost prev = self.game_state;
            let r = self.go_to_next_frame();
            if let Some(out) = r.game_over() {
                proof {
                    let (oc, xc) = choose|oc: Direction, xc: Direction|
                        frame_played(prev, self.game_state, oc, xc, r);
                }
                return out;
            }
            proof {
                let (oc, xc) = choose|oc: Direction, xc: Direction|
                    frame_played(prev, self.game_state, oc, xc, r);
                let h = prev.history();
                assert(prev.current() == h[h.len() - 1]);
                assert(crate::engine::grid::cells_wf(h[h.len() - 1]));
                lemma_advance_wf(prev.current(), oc, xc, prev.history().len() as usize);
                assert(self.game_state.current() == self.game_state.history().last());
            }
        }
    }
}

} // verus!
