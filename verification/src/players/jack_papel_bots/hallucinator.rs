use vstd::prelude::*;

use ::rand::seq::IndexedRandom;

use crate::engine::bot::Bot;
use crate::engine::direction::Direction;
use crate::engine::game_state::{lemma_valid_game_count, GameState};
use crate::engine::grid::{count_empty, head_position, occupied, Grid};
use crate::engine::grid_cell::GridCell;
use crate::engine::grid_position::{GridPosition, CELL_COUNT, GRID_SIZE};
use crate::engine::player_id::PlayerId;
use crate::players::jack_papel_bots::search::{is_path, reachable};
use crate::players::jack_papel_bots::{
    direction_to, empty_cells, pathfind, shortest_step, step_direction, steps_shortest_toward,
};
use crate::players::moves::{
    calm_directions, cautious_choice, cautious_direction, ideal_directions, not_instant_crash_directions,
    safe_directions, safe_step,
};

verus! {

/// This bot thinks it's playing Snake. It hallucinates that there is a fruit
/// on the board, and walks towards it along a path through empty cells. It
/// doesn't care about the other player, only about where it can and cannot
/// move to get to the fruit.
///
/// When the fruit cannot be reached, it picks a new empty cell for the fruit
/// at random.
pub struct Hallucinator {
    pub my_player_id: PlayerId,
    pub fruit_location: GridPosition,
}

/// One of the positions in `positions`, picked uniformly at random, or `None`
/// when there are none.
#[verifier::external_body]
fn choose_position(positions: &Vec<GridPosition>) -> (r: Option<GridPosition>)
    ensures
        r is Some <==> positions@.len() > 0,
        r matches Some(p) ==> positions@.contains(p),
{
    positions.choose(&mut ::rand::rng()).copied()
}

/// A field with an empty cell in its count has an empty cell.
proof fn lemma_has_empty(s: Seq<GridCell>)
    requires
        count_empty(s) >= 1,
    ensures
        exists|i: int| 0 <= i < s.len() && s[i] == GridCell::Empty,
    decreases s.len(),
{
    if s.last() != GridCell::Empty {
        lemma_has_empty(s.drop_last());
        let i = choose|i: int| 0 <= i < s.drop_last().len() && s.drop_last()[i] == GridCell::Empty;
        assert(s[i] == GridCell::Empty);
    } else {
        assert(s[s.len() - 1] == GridCell::Empty);
    }
}

impl Bot for Hallucinator {
    open spec fn plays_as(&self) -> PlayerId {
        self.my_player_id
    }

    fn new(my_player_id: PlayerId) -> (r: Self)
        ensures
            r.my_player_id == my_player_id,
            r.fruit_location.col() == 15 && r.fruit_location.row() == 15,
    {
        Hallucinator { my_player_id, fruit_location: Self::generate_initial_fruit_location() }
    }

    /// Walks the first step of a shortest path to the fruit; after 50
    /// fruits that cannot be reached it falls back to a cautious move.
    fn next_action(&mut self, game_state: &GameState) -> (r: Direction)
        ensures
            final(self).my_player_id == old(self).my_player_id,
            final(self).fruit_location.valid(),
            safe_step(game_state.current(), old(self).my_player_id, r) || r == cautious_choice(
                game_state.current(),
                old(self).my_player_id,
            ),
            ({
                let s = game_state.current();
                let my = head_position(s, old(self).my_player_id);
                ||| steps_shortest_toward(s, my, final(self).fruit_location, r)
                ||| r == cautious_choice(s, old(self).my_player_id)
            }),
            old(self).fruit_location.valid() && reachable(
                empty_cells(game_state.current()),
                head_position(game_state.current(), old(self).my_player_id),
                old(self).fruit_location,
            ) && old(self).fruit_location != head_position(game_state.current(), old(self).my_player_id)
                ==> final(self).fruit_location == old(self).fruit_location,
    {
        let grid = game_state.current_grid();
        let head = grid.player_head_position(self.my_player_id);
        let mut retries: usize = 0;
        let ghost keeps = old(self).fruit_location.valid() && reachable(empty_cells(grid@), head, old(self).fruit_location)
            && old(self).fruit_location != head;
        self.generate_fruit_if_invalid();
        while retries < 50
            invariant
                keeps == (old(self).fruit_location.valid() && reachable(empty_cells(grid@), head, old(self).fruit_location)
                    && old(self).fruit_location != head),
                keeps ==> retries == 0 && self.fruit_location == old(self).fruit_location,
                game_state.wf(),
                grid@ == game_state.current(),
                grid.wf(),
                head == head_position(grid@, old(self).my_player_id),
                head.valid(),
                self.my_player_id == old(self).my_player_id,
                self.fruit_location.valid(),
                retries <= 50,
            decreases 50 - retries,
        {
            if let Some(d) = shortest_step(head, self.fruit_location, grid) {
                return d;
            }
            retries = retries + 1;
            self.generate_new_fruit_location(game_state);
        }
        cautious_direction(grid, self.my_player_id)
    }
}

impl Hallucinator {
    /// Keeps the fruit on the field.
    fn generate_fruit_if_invalid(&mut self)
        ensures
            final(self).my_player_id == old(self).my_player_id,
            final(self).fruit_location.valid(),
            old(self).fruit_location.valid() ==> final(self).fruit_location == old(self).fruit_location,
    {
        if self.fruit_location.i() >= CELL_COUNT {
            self.fruit_location = Self::generate_initial_fruit_location();
        }
    }

    /// Puts the fruit on a random empty cell.
    pub fn generate_new_fruit_location(&mut self, game_state: &GameState)
        requires
            game_state.wf(),
        ensures
            final(self).my_player_id == old(self).my_player_id,
            final(self).fruit_location.valid(),
            !occupied(game_state.current(), final(self).fruit_location),
    {
        let grid = game_state.current_grid();
        let mut empty_positions: Vec<GridPosition> = Vec::new();
        let positions = GridPosition::iter_positions();
        let mut k: usize = 0;
        while k < CELL_COUNT
            invariant
                grid.wf(),
                positions@.len() == CELL_COUNT,
                forall|j: int| 0 <= j < CELL_COUNT ==> #[trigger] positions@[j] == GridPosition(j as usize),
                k <= CELL_COUNT,
                forall|j: int|
                    0 <= j < empty_positions@.len() ==> (#[trigger] empty_positions@[j]).valid() && !occupied(
                        grid@,
                        empty_positions@[j],
                    ),
                forall|j: int|
                    0 <= j < k && #[trigger] grid@[j] == GridCell::Empty ==> empty_positions@.contains(
                        GridPosition(j as usize),
                    ),
            decreases CELL_COUNT - k,
        {
            let pos = positions[k];
            let ghost old_e = empty_positions@;
            if pos.is_empty(grid) {
                empty_positions.push(pos);
            }
            proof {
                assert forall|j: int|
                    0 <= j < k + 1 && #[trigger] grid@[j] == GridCell::Empty implies empty_positions@.contains(
                    GridPosition(j as usize),
                ) by {
                    if j < k {
                        let i = choose|i: int| 0 <= i < old_e.len() && old_e[i] == GridPosition(j as usize);
                        assert(empty_positions@[i] == GridPosition(j as usize));
                    } else {
                        assert(empty_positions@[empty_positions@.len() - 1] == GridPosition(j as usize));
                    }
                }
            }
            k = k + 1;
        }
        proof {
            let h = game_state.history();
            lemma_valid_game_count(h, h.len() - 1);
            lemma_has_empty(grid@);
            let i = choose|i: int| 0 <= i < grid@.len() && grid@[i] == GridCell::Empty;
            assert(empty_positions@.contains(GridPosition(i as usize)));
        }
        match choose_position(&empty_positions) {
            Some(fruit_location) => {
                self.fruit_location = fruit_location;
            },
            None => {},
        }
    }

    /// Where the first fruit is: somewhat up and to the right of the middle.
    pub fn generate_initial_fruit_location() -> (r: GridPosition)
        ensures
            r.valid(),
            r.col() == 15,
            r.row() == 15,
    {
        GridPosition::new(GRID_SIZE / 2 + 5, GRID_SIZE / 2 + 5).unwrap()
    }

    /// A path through empty cells from this bot's head to the fruit, if there
    /// is one.
    pub fn find_path_to_fruit(&self, game_state: &GameState) -> (r: Option<Vec<GridPosition>>)
        requires
            game_state.wf(),
            self.fruit_location.valid(),
        ensures
            r is Some <==> reachable(
                empty_cells(game_state.current()),
                head_position(game_state.current(), self.my_player_id),
                self.fruit_location,
            ),
            r matches Some(p) ==> is_path(
                empty_cells(game_state.current()),
                p@,
                head_position(game_state.current(), self.my_player_id),
                self.fruit_location,
            ),
            r matches Some(p) ==> p@.no_duplicates(),
    {
        let grid = game_state.current_grid();
        let start = grid.player_head_position(self.my_player_id);
        pathfind_to_fruit(start, self.fruit_location, grid)
    }

    /// The directions in which this bot can move without crashing at once.
    pub fn not_instant_crash_directions(&self, game_state: &GameState) -> (r: Vec<Direction>)
        requires
            game_state.wf(),
        ensures
            r@ == safe_directions(game_state.current(), self.my_player_id),
    {
        not_instant_crash_directions(game_state.current_grid(), self.my_player_id)
    }

    /// The safe directions that do not end next to the other player's head.
    pub fn ideal_directions(&self, game_state: &GameState) -> (r: Vec<Direction>)
        requires
            game_state.wf(),
        ensures
            r@ == calm_directions(game_state.current(), self.my_player_id),
    {
        ideal_directions(game_state.current_grid(), self.my_player_id)
    }

    /// The direction from this bot's head to the adjacent cell `next_pos`.
    pub fn direction_to(&self, game_state: &GameState, next_pos: GridPosition) -> (r: Direction)
        requires
            game_state.wf(),
        ensures
            r == step_direction(head_position(game_state.current(), self.my_player_id), next_pos),
    {
        let head = game_state.current_grid().player_head_position(self.my_player_id);
        direction_to(head, next_pos)
    }
}

/// A walk through empty cells from `start` to the fruit, by A* search with
/// the Manhattan distance as its estimate; `Some` exactly when one exists.
pub fn pathfind_to_fruit(start: GridPosition, fruit_location: GridPosition, grid: &Grid) -> (r: Option<
    Vec<GridPosition>,
>)
    requires
        start.valid(),
        fruit_location.valid(),
        grid@.len() == CELL_COUNT,
    ensures
        r is Some <==> reachable(empty_cells(grid@), start, fruit_location),
        r matches Some(p) ==> is_path(empty_cells(grid@), p@, start, fruit_location),
        r matches Some(p) ==> p@.no_duplicates(),
{
    pathfind(start, fruit_location, grid)
}

} // verus!
