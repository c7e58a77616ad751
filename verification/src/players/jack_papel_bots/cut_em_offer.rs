use vstd::prelude::*;

use crate::players::jack_papel_bots::JackBot;

use crate::engine::bot::Bot;
use crate::engine::direction::Direction;
use crate::engine::game_state::GameState;
use crate::engine::grid::{head_position, occupied, Grid};
use crate::engine::grid_cell::GridCell;
use crate::engine::grid_position::{GridPosition, CELL_COUNT};
use crate::engine::player_id::PlayerId;
use crate::players::chatgpt_bots::apex_bot::shortest;
use crate::players::jack_papel_bots::rip_and_tear::lemma_path_valid;
use crate::players::jack_papel_bots::search::{is_path, reachable};
use crate::players::jack_papel_bots::{
    borders_head, can_step, empty_cells, farthest_cell, find_farthest_point, lemma_farthest_moves,
    lemma_head_unreachable, lemma_off_walk, path_step, pathfind, shortest_distance, steps_shortest_toward, steps_toward, shortest_step,
};
use crate::players::moves::{cautious_choice, cautious_direction, lemma_cautious_safe, safe_step};
use crate::players::regions::in_region;

verus! {

/// The position, among `path` from index `k` on, that `my` reaches in no
/// more steps than its index in `path`, with the fewest steps (the first
/// such on a tie), given the best so far with its steps.
pub open spec fn cut_em_pick(
    s: Seq<GridCell>,
    my: GridPosition,
    path: Seq<GridPosition>,
    k: nat,
    best: Option<(GridPosition, int)>,
) -> Option<(GridPosition, int)>
    decreases path.len() - k,
{
    if k >= path.len() {
        best
    } else {
        let pos = path[k as int];
        let reach = in_region(empty_cells(s), my, pos.0 as int);
        let d = shortest(empty_cells(s), my, pos.0 as int);
        let next = if reach && d <= k {
            match best {
                Some(b) => if d < b.1 {
                    Some((pos, d))
                } else {
                    best
                },
                None => Some((pos, d)),
            }
        } else {
            best
        };
        cut_em_pick(s, my, path, k + 1, next)
    }
}

/// The point where `my` can cut off a player walking along `path`: the
/// position of `path` that `my` reaches soonest, among those it reaches no
/// later than the walker.
pub fn cut_em_point(my_pos: GridPosition, path: &Vec<GridPosition>, grid: &Grid) -> (r: Option<GridPosition>)
    requires
        my_pos.valid(),
        grid@.len() == CELL_COUNT,
        forall|k: int| 0 <= k < path@.len() ==> (#[trigger] path@[k]).valid(),
    ensures
        r == (match cut_em_pick(grid@, my_pos, path@, 0, None) {
            Some(b) => Some(b.0),
            None => None,
        }),
        r matches Some(p) ==> p.valid(),
{
    let mut best: Option<(GridPosition, usize)> = None;
    let mut other_distance: usize = 0;
    while other_distance < path.len()
        invariant
            my_pos.valid(),
            grid@.len() == CELL_COUNT,
            forall|k: int| 0 <= k < path@.len() ==> (#[trigger] path@[k]).valid(),
            other_distance <= path@.len(),
            best matches Some(b) ==> b.0.valid(),
            cut_em_pick(grid@, my_pos, path@, other_distance as nat, match best {
                Some(b) => Some((b.0, b.1 as int)),
                None => None,
            }) == cut_em_pick(grid@, my_pos, path@, 0, None),
        decreases path@.len() - other_distance,
    {
        let pos = path[other_distance];
        match shortest_distance(my_pos, pos, grid) {
            Some(my_distance) => {
                if my_distance <= other_distance {
                    match best {
                        Some(b) => {
                            if my_distance < b.1 {
                                best = Some((pos, my_distance));
                            }
                        },
                        None => {
                            best = Some((pos, my_distance));
                        },
                    }
                }
            },
            None => {},
        }
        other_distance = other_distance + 1;
    }
    match best {
        Some(b) => Some(b.0),
        None => None,
    }
}

/// The cell that `cut_em_pick` names on `path`, if any.
pub open spec fn cut_em_target(s: Seq<GridCell>, my: GridPosition, path: Seq<GridPosition>) -> Option<GridPosition> {
    match cut_em_pick(s, my, path, 0, None) {
        Some(b) => Some(b.0),
        None => None,
    }
}

/// The move of `me` where no cut-off is tried: the cautious choice where it
/// enters an empty cell, else left.
pub open spec fn em_fallback(s: Seq<GridCell>, me: PlayerId, r: Direction) -> bool {
    let c = cautious_choice(s, me);
    if head_position(s, me).moved(c) matches Some(q) && !occupied(s, q) {
        r == c
    } else {
        r == Direction::NegativeX
    }
}

/// The move of `me` heading for the cut-off cell `t`: where `t` is next to
/// the other head, a step towards a farthest cell of its own region (the
/// fallback where it cannot step); else the first step of a shortest walk
/// to `t`, or the fallback where `t` cannot be reached.
pub open spec fn em_chase(s: Seq<GridCell>, me: PlayerId, t: GridPosition, r: Direction) -> bool {
    let my = head_position(s, me);
    if borders_head(s, t, me.spec_other()) {
        if can_step(s, my) {
            exists|f: GridPosition| #[trigger] farthest_cell(s, my, f) && steps_toward(s, my, f, r)
        } else {
            em_fallback(s, me, r)
        }
    } else {
        steps_shortest_toward(s, my, t, r) || (!reachable(empty_cells(s), my, t) && em_fallback(s, me, r))
    }
}

/// The move of `me` for some walk `path` (without repeated cells) of the
/// other player to a farthest cell `f` of its region: the chase of the
/// cut-off cell on it, or the fallback where there is none.
pub open spec fn em_plan(s: Seq<GridCell>, me: PlayerId, f: GridPosition, path: Seq<GridPosition>, r: Direction) -> bool {
    let my = head_position(s, me);
    let other = head_position(s, me.spec_other());
    &&& farthest_cell(s, other, f)
    &&& is_path(empty_cells(s), path, other, f)
    &&& path.no_duplicates()
    &&& match cut_em_target(s, my, path) {
        Some(t) => em_chase(s, me, t, r),
        None => em_fallback(s, me, r),
    }
}

/// The cell that `cut_em_pick` names is a cell of the walk.
proof fn lemma_cut_em_member(
    s: Seq<GridCell>,
    my: GridPosition,
    path: Seq<GridPosition>,
    k: nat,
    best: Option<(GridPosition, int)>,
)
    requires
        best matches Some(b) ==> path.contains(b.0),
    ensures
        cut_em_pick(s, my, path, k, best) matches Some(b) ==> path.contains(b.0),
    decreases path.len() - k,
{
    if k < path.len() {
        let pos = path[k as int];
        let reach = in_region(empty_cells(s), my, pos.0 as int);
        let d = shortest(empty_cells(s), my, pos.0 as int);
        let next = if reach && d <= k {
            match best {
                Some(b) => if d < b.1 {
                    Some((pos, d))
                } else {
                    best
                },
                None => Some((pos, d)),
            }
        } else {
            best
        };
        assert(path[k as int] == pos);
        lemma_cut_em_member(s, my, path, k + 1, next);
    }
}

/// Heads for the cell of the other player's walk to its farthest cell that
/// it reaches no later than the other player; otherwise moves towards open
/// space, or fills its region.
pub struct CutEmOffer {
    pub my_player_id: PlayerId,
}

impl Bot for CutEmOffer {
    open spec fn plays_as(&self) -> PlayerId {
        self.my_player_id
    }

    fn new(my_player_id: PlayerId) -> (r: Self)
        ensures
            r.my_player_id == my_player_id,
    {
        CutEmOffer { my_player_id }
    }

    /// The chase of the cut-off cell on a walk of the other player to its
    /// farthest cell (see `em_plan`); a step into an empty cell, left only
    /// where no step enters one.
    fn next_action(&mut self, game_state: &GameState) -> (r: Direction)
        ensures
            safe_step(game_state.current(), old(self).my_player_id, r) || (r == Direction::NegativeX && !can_step(
                game_state.current(),
                head_position(game_state.current(), old(self).my_player_id),
            )),
            exists|f: GridPosition, path: Seq<GridPosition>|
                #[trigger] em_plan(game_state.current(), old(self).my_player_id, f, path, r),
    {
        let grid = game_state.current_grid();
        let me = self.my_player_id;
        let other = me.other();
        let my_pos = grid.player_head_position(me);
        let other_pos = grid.player_head_position(other);
        let other_farthest = find_farthest_point(other_pos, grid).1;
        let ghost mut walk: Seq<GridPosition> = Seq::empty();
        let target = match pathfind(other_pos, other_farthest, grid) {
            Some(path) => {
                proof {
                    lemma_path_valid(empty_cells(grid@), path@, other_pos, other_farthest);
                    walk = path@;
                }
                cut_em_point(my_pos, &path, grid)
            },
            None => None,
        };
        proof {
            assert(farthest_cell(grid@, other_pos, other_farthest));
            assert(is_path(empty_cells(grid@), walk, other_pos, other_farthest));
            assert(target == cut_em_target(grid@, my_pos, walk));
            lemma_cut_em_member(grid@, my_pos, walk, 0, None);
            lemma_off_walk(grid@, me, walk, other_farthest);
        }
        let chased = match target {
            Some(next_pos) => {
                if next_pos.borders_players_head(grid, other) {
                    most_open_space_step(grid, my_pos)
                } else {
                    proof {
                        assert(walk.contains(next_pos));
                    }
                    shortest_step(my_pos, next_pos, grid)
                }
            },
            None => None,
        };
        let chosen = match chased {
            Some(d) => Some(d),
            None => {
                proof {
                    lemma_head_unreachable(grid@, me);
                }
                if pathfind(my_pos, other_pos, grid).is_some() {
                    most_open_space_step(grid, my_pos)
                } else {
                    let d = cautious_direction(grid, me);
                    proof {
                        if can_step(grid@, my_pos) {
                            let e = choose|e: Direction| #[trigger] my_pos.moved(e) matches Some(q) && !occupied(grid@, q);
                            lemma_cautious_safe(grid@, me, e);
                        }
                    }
                    match my_pos.after_moved(d) {
                        Some(p) => if p.is_empty(grid) {
                            Some(d)
                        } else {
                            None
                        },
                        None => None,
                    }
                }
            },
        };
        let r = match chosen {
            Some(d) => d,
            None => Direction::NegativeX,
        };
        proof {
            assert(em_plan(grid@, me, other_farthest, walk, r));
        }
        r
    }
}

/// A step towards the cell farthest from `my_pos` in its region.
pub fn most_open_space_step(grid: &Grid, my_pos: GridPosition) -> (r: Option<Direction>)
    requires
        grid@.len() == CELL_COUNT,
        my_pos.valid(),
    ensures
        r matches Some(d) ==> (my_pos.moved(d) matches Some(q) && !occupied(grid@, q)),
        r matches Some(d) ==> (my_pos.moved(d) matches Some(q) && exists|f: GridPosition|
            #[trigger] farthest_cell(grid@, my_pos, f) && reachable(empty_cells(grid@), q, f)),
        r is Some <==> can_step(grid@, my_pos),
{
    let farthest_point = find_farthest_point(my_pos, grid).1;
    proof {
        if can_step(grid@, my_pos) {
            let d = choose|d: Direction| #[trigger] my_pos.moved(d) matches Some(q) && !occupied(grid@, q);
            lemma_farthest_moves(grid@, my_pos, farthest_point, d);
        }
    }
    let r = path_step(my_pos, farthest_point, grid);
    proof {
        if r is Some {
            assert(my_pos.moved(r->0) matches Some(q) && !occupied(grid@, q));
            assert(farthest_cell(grid@, my_pos, farthest_point));
        }
    }
    r
}

impl JackBot for CutEmOffer {
    open spec fn player(&self) -> PlayerId {
        self.my_player_id
    }

    fn my_player_id(&self) -> (r: PlayerId) {
        self.my_player_id
    }
}

} // verus!
