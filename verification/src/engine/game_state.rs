use vstd::prelude::*;

use crate::engine::direction::Direction;
use crate::engine::grid::{
    advanced, cells_wf, count_empty, frame_verdict, lemma_advance_wf, lemma_count_empty_bound,
    lemma_count_empty_update, starting_cells, Grid,
};
use crate::engine::grid_cell::GridCell;
use crate::engine::grid_position::CELL_COUNT;
use crate::engine::{GameOver, NextFrameResult};

verus! {

/// The grids of a game so far (oldest first) and how it ended, if it did.
#[derive(Clone, PartialEq, Eq, Hash)]
pub struct GameState {
    pub grid_history: Vec<Grid>,
    pub game_over: Option<GameOver>,
}

/// `next` follows `prev` by one safe frame, stamped with frame number `frame`.
pub open spec fn is_step(prev: Seq<GridCell>, next: Seq<GridCell>, frame: usize) -> bool {
    exists|oc: Direction, xc: Direction|
        #![trigger advanced(prev, oc, xc, frame)]
        frame_verdict(prev, oc, xc) is None && next == advanced(prev, oc, xc, frame)
}

/// `h` is the list of frames of a game: it starts with the starting field and
/// each frame follows the one before it by one safe step.
pub open spec fn valid_game(h: Seq<Seq<GridCell>>) -> bool {
    &&& h.len() >= 1
    &&& h[0] == starting_cells()
    &&& forall|k: int| 0 <= k < h.len() ==> cells_wf(#[trigger] h[k])
    &&& forall|k: int| 1 <= k < h.len() ==> #[trigger] is_step(h[k - 1], h[k], k as usize)
}

/// The starting field has 439 empty cells.
pub proof fn lemma_start_count()
    ensures
        count_empty(starting_cells()) == 439,
{
    let e = Seq::new(CELL_COUNT as nat, |i: int| GridCell::Empty);
    lemma_count_all_empty(441);
    let s1 = e.update(219, GridCell::Head(crate::engine::grid::player_o(), Direction::NegativeX));
    lemma_count_empty_update(e, 219, GridCell::Head(crate::engine::grid::player_o(), Direction::NegativeX));
    lemma_count_empty_update(s1, 221, GridCell::Head(crate::engine::grid::player_x(), Direction::PositiveX));
}

proof fn lemma_count_all_empty(n: nat)
    ensures
        count_empty(Seq::new(n, |i: int| GridCell::Empty)) == n,
    decreases n,
{
    if n > 0 {
        assert(Seq::new(n, |i: int| GridCell::Empty).drop_last() =~= Seq::new(
            (n - 1) as nat,
            |i: int| GridCell::Empty,
        ));
        lemma_count_all_empty((n - 1) as nat);
    }
}

/// Every frame of a game uses up two empty cells: frame `k` has
/// `439 - 2 * k` of them. The field therefore never fills up, and a game has
/// fewer than 220 frames.
pub proof fn lemma_valid_game_count(h: Seq<Seq<GridCell>>, k: int)
    requires
        valid_game(h),
        0 <= k < h.len(),
    ensures
        count_empty(h[k]) == 439 - 2 * k,
        count_empty(h[k]) >= 1,
    decreases k,
{
    if k == 0 {
        lemma_start_count();
    } else {
        lemma_valid_game_count(h, k - 1);
        assert(is_step(h[k - 1], h[k], k as usize));
        let (oc, xc) = choose|oc: Direction, xc: Direction|
            #![trigger advanced(h[k - 1], oc, xc, k as usize)]
            frame_verdict(h[k - 1], oc, xc) is None && h[k] == advanced(h[k - 1], oc, xc, k as usize);
        lemma_advance_wf(h[k - 1], oc, xc, k as usize);
        lemma_count_empty_bound(h[k]);
    }
}

impl GameState {
    /// The frames so far, as fields.
    pub open spec fn history(self) -> Seq<Seq<GridCell>> {
        self.grid_history@.map_values(|g: Grid| g@)
    }

    /// The field of the most recent frame.
    pub open spec fn current(self) -> Seq<GridCell> {
        self.grid_history@.last()@
    }

    /// The state holds a game played by the rules from the start.
    pub open spec fn wf(self) -> bool {
        valid_game(self.history())
    }

    /// A new game at its first frame.
    pub fn new() -> (r: Self)
        ensures
            r.wf(),
            r.history() == seq![starting_cells()],
            r.game_over is None,
    {
        let mut grid_history: Vec<Grid> = Vec::new();
        grid_history.push(Grid::new_default());
        let r = GameState { grid_history, game_over: None };
        assert(r.history() =~= seq![starting_cells()]);
        r
    }

    /// The grid of the most recently generated frame.
    pub fn current_grid(&self) -> (r: &Grid)
        requires
            self.wf(),
        ensures
            r@ == self.current(),
            r@ == self.history().last(),
            r.wf(),
    {
        let n = self.grid_history.len();
        &self.grid_history[n - 1]
    }

    /// Starts at 0 and increases by 1 with each frame; the time of the most
    /// recently generated frame.
    pub fn current_time(&self) -> (r: usize)
        requires
            self.wf(),
        ensures
            r == self.history().len() - 1,
    {
        self.grid_history.len() - 1
    }

    /// The grid of frame `time_since_start`, if there was such a frame.
    pub fn grid(&self, time_since_start: usize) -> (r: Option<&Grid>)
        ensures
            r is Some <==> time_since_start < self.history().len(),
            r matches Some(g) ==> g@ == self.history()[time_since_start as int],
    {
        if time_since_start < self.grid_history.len() {
            Some(&self.grid_history[time_since_start])
        } else {
            None
        }
    }

    /// The grids of all frames, oldest first.
    pub fn grid_history(&self) -> (r: &Vec<Grid>)
        ensures
            r@.map_values(|g: Grid| g@) == self.history(),
    {
        &self.grid_history
    }

    pub fn is_game_over(&self) -> (r: bool)
        ensures
            r == self.game_over is Some,
    {
        self.game_over.is_some()
    }

    /// Plays one frame with O moving in direction `player_a_choice` and X in
    /// direction `player_b_choice`. A finished game stays finished and
    /// answers with its end; otherwise the frame is played (see
    /// `Grid::next_grid`) and either appended to the history or recorded as
    /// the end of the game.
    pub fn go_to_next_frame(&mut self, player_a_choice: Direction, player_b_choice: Direction) -> (r:
        NextFrameResult)
        requires
            old(self).wf(),
        ensures
            final(self).wf(),
            old(self).game_over matches Some(g) ==> r.verdict() == Some(g) && *final(self) == *old(
                self,
            ),
            old(self).game_over is None ==> {
                &&& r.verdict() == frame_verdict(old(self).current(), player_a_choice, player_b_choice)
                &&& final(self).game_over == r.verdict()
                &&& r matches NextFrameResult::NextFrame(g) ==> g@ == advanced(
                    old(self).current(),
                    player_a_choice,
                    player_b_choice,
                    old(self).history().len() as usize,
                ) && final(self).history() == old(self).history().push(g@)
                &&& r.verdict() is Some ==> final(self).history() == old(self).history()
            },
    {
        if let Some(game_over) = self.game_over {
            return NextFrameResult::from_game_over(game_over);
        }
        let ghost old_h = self.history();
        proof {
            lemma_valid_game_count(old_h, old_h.len() - 1);
        }
        let time = self.current_time() + 1;
        let next_frame_result = self.current_grid().next_grid(
            player_a_choice,
            player_b_choice,
            time,
        );
        match &next_frame_result {
            NextFrameResult::NextFrame(grid) => {
                let g = grid.duplicate();
                self.grid_history.push(g);
                proof {
                    let h = self.history();
                    assert(h =~= old_h.push(grid@));
                    let k = old_h.len() as int;
                    assert(is_step(h[k - 1], h[k], k as usize));
                    assert forall|j: int| 1 <= j < h.len() implies #[trigger] is_step(
                        h[j - 1],
                        h[j],
                        j as usize,
                    ) by {
                        if j < k {
                            assert(h[j] == old_h[j] && h[j - 1] == old_h[j - 1]);
                        }
                    }
                    assert forall|j: int| 0 <= j < h.len() implies cells_wf(#[trigger] h[j]) by {
                        if j < old_h.len() {
                            assert(h[j] == old_h[j]);
                        }
                    }
                }
            },
            NextFrameResult::Winner { player_who_won } => {
                self.game_over = Some(GameOver::Winner { player_who_won: *player_who_won });
            },
            NextFrameResult::Draw => {
                self.game_over = Some(GameOver::Draw);
            },
        }
        next_frame_result
    }
}

} // verus!
