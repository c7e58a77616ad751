use vstd::prelude::*;

use crate::players::jack_papel_bots::JackBot;

use crate::engine::bot::Bot;
use crate::engine::direction::Direction;
use crate::engine::game_state::GameState;
use crate::engine::grid::{head_direction, head_position, occupied, Grid};
use crate::engine::grid_cell::GridCell;
use crate::engine::grid_position::{GridPosition, CELL_COUNT};
use crate::engine::player_id::PlayerId;
use crate::players::chatgpt_bots::apex_bot::shortest;
use crate::players::jack_papel_bots::search::{is_path, reachable, step_ok};
use crate::players::jack_papel_bots::{
    borders_head, can_step, empty_cells, farthest_cell, farthest_distance, find_farthest_point, head_free_mask,
    lemma_farthest_moves, lemma_head_unreachable, lemma_off_walk, lemma_reachable_mono, masked_step, path_step,
    pathfind, shortest_distance, steps_shortest_toward, steps_toward, shortest_step,
};
use crate::players::moves::{calm_directions, ideal_directions, safe_step};
use crate::players::regions::in_region;

verus! {

/// The position, among `path` from index `k` on, that `my` reaches in no
/// more steps than its index in `path`, with the fewest steps (the first such
/// on a tie), given the best so far with its steps.
pub open spec fn cut_off_pick(
    s: Seq<GridCell>,
    my: GridPosition,
    path: Seq<GridPosition>,
    k: nat,
    best: Option<(GridPosition, int)>,
) -> Option<(GridPosition, int)>
    decreases path.len() - k,
{
    if k >= path.len() {
        best
    } else {
        let pos = path[k as int];
        let reach = in_region(empty_cells(s), my, pos.0 as int);
        let d = shortest(empty_cells(s), my, pos.0 as int);
        let next = if reach && d <= k {
            match best {
                Some(b) => if d < b.1 {
                    Some((pos, d))
                } else {
                    best
                },
                None => Some((pos, d)),
            }
        } else {
            best
        };
        cut_off_pick(s, my, path, k + 1, next)
    }
}

/// The point where `my` can cut off a player walking along `path`: the
/// position of `path` that `my` reaches soonest, among those it reaches no
/// later than the walker.
pub fn cut_off_point(my_pos: GridPosition, path: &Vec<GridPosition>, grid: &Grid) -> (r: Option<GridPosition>)
    requires
        my_pos.valid(),
        grid@.len() == CELL_COUNT,
        forall|k: int| 0 <= k < path@.len() ==> (#[trigger] path@[k]).valid(),
    ensures
        r == (match cut_off_pick(grid@, my_pos, path@, 0, None) {
            Some(b) => Some(b.0),
            None => None,
        }),
        r matches Some(p) ==> p.valid(),
{
    let mut best: Option<(GridPosition, usize)> = None;
    let mut other_distance: usize = 0;
    while other_distance < path.len()
        invariant
            my_pos.valid(),
            grid@.len() == CELL_COUNT,
            forall|k: int| 0 <= k < path@.len() ==> (#[trigger] path@[k]).valid(),
            other_distance <= path@.len(),
            best matches Some(b) ==> b.0.valid(),
            cut_off_pick(grid@, my_pos, path@, other_distance as nat, match best {
                Some(b) => Some((b.0, b.1 as int)),
                None => None,
            }) == cut_off_pick(grid@, my_pos, path@, 0, None),
        decreases path@.len() - other_distance,
    {
        let pos = path[other_distance];
        match shortest_distance(my_pos, pos, grid) {
            Some(my_distance) => {
                if my_distance <= other_distance {
                    match best {
                        Some(b) => {
                            if my_distance < b.1 {
                                best = Some((pos, my_distance));
                            }
                        },
                        None => {
                            best = Some((pos, my_distance));
                        },
                    }
                }
            },
            None => {},
        }
        other_distance = other_distance + 1;
    }
    match best {
        Some(b) => Some(b.0),
        None => None,
    }
}

/// Every position of a walk lies on the field.
pub proof fn lemma_path_valid(allowed: Seq<bool>, p: Seq<GridPosition>, start: GridPosition, goal: GridPosition)
    requires
        is_path(allowed, p, start, goal),
        start.valid(),
    ensures
        forall|k: int| 0 <= k < p.len() ==> (#[trigger] p[k]).valid(),
{
    assert forall|k: int| 0 <= k < p.len() implies (#[trigger] p[k]).valid() by {
        if k > 0 {
            assert(step_ok(allowed, p[k - 1], p[(k - 1) + 1]));
        }
    }
}

/// The cell that `cut_off_pick` names on `path`, if any.
pub open spec fn cut_off_target(s: Seq<GridCell>, my: GridPosition, path: Seq<GridPosition>) -> Option<GridPosition> {
    match cut_off_pick(s, my, path, 0, None) {
        Some(b) => Some(b.0),
        None => None,
    }
}

/// The move of `me` where no cut-off is tried: the wall-following move, or
/// left where it has none; where wall-following has no rule, a step into an
/// empty cell, or left where there is none.
pub open spec fn rip_fallback(s: Seq<GridCell>, me: PlayerId, r: Direction) -> bool {
    match wall_follow(s, me) {
        Some(Some(d)) => r == d,
        Some(None) => r == Direction::NegativeX,
        None => if can_step(s, head_position(s, me)) {
            head_position(s, me).moved(r) matches Some(q) && !occupied(s, q)
        } else {
            r == Direction::NegativeX
        },
    }
}

/// The move of `me` heading for the cut-off cell `t`: where `t` is next to
/// the other head, a step towards a farthest cell of the other's region,
/// else the first step of a shortest walk to `t`; where that cell cannot be
/// reached, the fallback.
pub open spec fn rip_chase(s: Seq<GridCell>, me: PlayerId, t: GridPosition, r: Direction) -> bool {
    let my = head_position(s, me);
    let other = head_position(s, me.spec_other());
    if borders_head(s, t, me.spec_other()) {
        exists|f: GridPosition|
            #[trigger] farthest_cell(s, other, f) && (steps_toward(s, my, f, r) || (!reachable(
                empty_cells(s),
                my,
                f,
            ) && rip_fallback(s, me, r)))
    } else {
        steps_shortest_toward(s, my, t, r) || (!reachable(empty_cells(s), my, t) && rip_fallback(s, me, r))
    }
}

/// The move of `me` for some walk `path` (without repeated cells) of the
/// other player to a farthest cell `f` of its region: the chase of the
/// cut-off cell on it, or the fallback where there is none.
pub open spec fn rip_plan(s: Seq<GridCell>, me: PlayerId, f: GridPosition, path: Seq<GridPosition>, r: Direction) -> bool {
    let my = head_position(s, me);
    let other = head_position(s, me.spec_other());
    &&& farthest_cell(s, other, f)
    &&& is_path(empty_cells(s), path, other, f)
    &&& path.no_duplicates()
    &&& match cut_off_target(s, my, path) {
        Some(t) => rip_chase(s, me, t, r),
        None => rip_fallback(s, me, r),
    }
}

/// The cell that `cut_off_pick` names is a cell of the walk.
proof fn lemma_cut_off_member(
    s: Seq<GridCell>,
    my: GridPosition,
    path: Seq<GridPosition>,
    k: nat,
    best: Option<(GridPosition, int)>,
)
    requires
        best matches Some(b) ==> path.contains(b.0),
    ensures
        cut_off_pick(s, my, path, k, best) matches Some(b) ==> path.contains(b.0),
    decreases path.len() - k,
{
    if k < path.len() {
        let pos = path[k as int];
        let reach = in_region(empty_cells(s), my, pos.0 as int);
        let d = shortest(empty_cells(s), my, pos.0 as int);
        let next = if reach && d <= k {
            match best {
                Some(b) => if d < b.1 {
                    Some((pos, d))
                } else {
                    best
                },
                None => Some((pos, d)),
            }
        } else {
            best
        };
        assert(path[k as int] == pos);
        lemma_cut_off_member(s, my, path, k + 1, next);
    }
}

/// Guesses where the other player is heading (the cell farthest from it),
/// and heads for the cell of that walk it can reach first; otherwise it
/// escapes towards open space or follows the wall on its right.
pub struct RipAndTear {
    pub my_player_id: PlayerId,
}

impl Bot for RipAndTear {
    open spec fn plays_as(&self) -> PlayerId {
        self.my_player_id
    }

    fn new(my_player_id: PlayerId) -> (r: Self)
        ensures
            r.my_player_id == my_player_id,
    {
        RipAndTear { my_player_id }
    }

    /// The chase of the cut-off cell on a walk of the other player to its
    /// farthest cell (see `rip_plan`): a step into an empty cell; left only
    /// where no step enters one, or where the wall it follows leaves it no
    /// calm step to the right, ahead or to the left.
    fn next_action(&mut self, game_state: &GameState) -> (r: Direction)
        ensures
            safe_step(game_state.current(), old(self).my_player_id, r) || (r == Direction::NegativeX && (wall_follow(
                game_state.current(),
                old(self).my_player_id,
            ) == Some(None::<Direction>) || !can_step(
                game_state.current(),
                head_position(game_state.current(), old(self).my_player_id),
            ))),
            exists|f: GridPosition, path: Seq<GridPosition>|
                #[trigger] rip_plan(game_state.current(), old(self).my_player_id, f, path, r),
    {
        let grid = game_state.current_grid();
        let me = self.my_player_id;
        let other = me.other();
        let my_pos = grid.player_head_position(me);
        let other_pos = grid.player_head_position(other);
        let farthest_point = find_farthest_point(other_pos, grid).1;
        let ghost mut walk: Seq<GridPosition> = Seq::empty();
        let target = match pathfind(other_pos, farthest_point, grid) {
            Some(path) => {
                proof {
                    lemma_path_valid(empty_cells(grid@), path@, other_pos, farthest_point);
                    walk = path@;
                }
                cut_off_point(my_pos, &path, grid)
            },
            None => None,
        };
        proof {
            assert(farthest_cell(grid@, other_pos, farthest_point));
            assert(is_path(empty_cells(grid@), walk, other_pos, farthest_point));
            assert(target == cut_off_target(grid@, my_pos, walk));
            lemma_cut_off_member(grid@, my_pos, walk, 0, None);
            lemma_off_walk(grid@, me, walk, farthest_point);
            lemma_head_unreachable(grid@, me.spec_other());
            assert(me.spec_other().spec_other() == me);
        }
        let chased = match target {
            Some(next_pos) => {
                if next_pos.borders_players_head(grid, other) {
                    let a = avoid_head_step(grid, me, my_pos, other_pos);
                    proof {
                        let f = choose|f: GridPosition|
                            #[trigger] farthest_cell(grid@, other_pos, f) && (reachable(empty_cells(grid@), my_pos, f)
                                && f != my_pos ==> a is Some) && (!reachable(empty_cells(grid@), my_pos, f) ==> a is None)
                                && (a matches Some(d) ==> (my_pos.moved(d) matches Some(q) && reachable(
                                empty_cells(grid@),
                                q,
                                f,
                            )));
                        if f == my_pos {
                            assert(reachable(empty_cells(grid@), other_pos, f));
                        }
                    }
                    a
                } else {
                    proof {
                        assert(walk.contains(next_pos));
                    }
                    shortest_step(my_pos, next_pos, grid)
                }
            },
            None => None,
        };
        let chosen = match chased {
            Some(d) => Some(d),
            None => no_cut_off_step(grid, me, my_pos, other_pos),
        };
        let r = match chosen {
            Some(d) => d,
            None => Direction::NegativeX,
        };
        proof {
            assert(rip_plan(grid@, me, farthest_point, walk, r));
        }
        r
    }
}

/// A step towards the cell farthest from `other_pos` along a walk that keeps
/// away from the other head, else along any walk through empty cells.
pub fn avoid_head_step(grid: &Grid, me: PlayerId, my_pos: GridPosition, other_pos: GridPosition) -> (r: Option<
    Direction,
>)
    requires
        grid.wf(),
        my_pos.valid(),
        other_pos.valid(),
    ensures
        r matches Some(d) ==> (my_pos.moved(d) matches Some(q) && !occupied(grid@, q)),
        exists|f: GridPosition|
            #[trigger] farthest_cell(grid@, other_pos, f) && (reachable(empty_cells(grid@), my_pos, f) && f != my_pos
                ==> r is Some) && (!reachable(empty_cells(grid@), my_pos, f) ==> r is None) && (r matches Some(d)
                ==> (my_pos.moved(d) matches Some(q) && reachable(empty_cells(grid@), q, f))),
{
    let farthest_point = find_farthest_point(other_pos, grid).1;
    let mask = head_free_mask(grid, me.other());
    proof {
        if reachable(mask@, my_pos, farthest_point) {
            lemma_reachable_mono(mask@, empty_cells(grid@), my_pos, farthest_point);
        }
    }
    let r = match masked_step(my_pos, farthest_point, &mask) {
        Some(d) => {
            proof {
                let q = my_pos.moved(d)->0;
                lemma_reachable_mono(mask@, empty_cells(grid@), q, farthest_point);
            }
            Some(d)
        },
        None => path_step(my_pos, farthest_point, grid),
    };
    proof {
        assert(farthest_cell(grid@, other_pos, farthest_point));
    }
    r
}

/// `d` is one of `v`.
fn dir_in(v: &Vec<Direction>, d: Direction) -> (r: bool)
    ensures
        r == v@.contains(d),
{
    let mut k: usize = 0;
    while k < v.len()
        invariant
            k <= v@.len(),
            forall|j: int| 0 <= j < k ==> v@[j] != d,
        decreases v@.len() - k,
    {
        if v[k] == d {
            assert(v@[k as int] == d);
            return true;
        }
        k = k + 1;
    }
    false
}

/// The cell two steps away, first `a` then `b`, is on the field and empty.
fn open_after(grid: &Grid, pos: GridPosition, a: Direction, b: Direction) -> (r: bool)
    requires
        grid@.len() == CELL_COUNT,
        pos.valid(),
    ensures
        r == open_two(grid@, pos, a, b),
{
    match pos.after_moved(a) {
        Some(p) => match p.after_moved(b) {
            Some(q) => q.is_empty(grid),
            None => false,
        },
        None => false,
    }
}

/// Moving from `pos` first in direction `a`, then in direction `b`, stays on
/// the field and ends on an empty cell.
pub open spec fn open_two(s: Seq<GridCell>, pos: GridPosition, a: Direction, b: Direction) -> bool {
    pos.moved(a) matches Some(p) && p.moved(b) matches Some(q) && !occupied(s, q)
}

/// The move of `me` that follows the wall on its right, from the calm steps
/// to its right, ahead and to its left: `Some(Some(d))` for a move `d`,
/// `Some(None)` where none of the three is calm, and `None` where the bot
/// falls back on heading for open space. Where it can go ahead and turn
/// left but not right, it picks the one whose farthest cell is farther; so
/// too for ahead and right.
pub open spec fn wall_follow(s: Seq<GridCell>, me: PlayerId) -> Option<Option<Direction>> {
    let my = head_position(s, me);
    let dir = head_direction(s, me);
    let right = dir.turned_right();
    let left = dir.turned_left();
    let avail = calm_directions(s, me);
    let cr = avail.contains(right);
    let cf = avail.contains(dir);
    let cl = avail.contains(left);
    if !cl && !cf && !cr {
        Some(None)
    } else if !cl && !cf && cr {
        Some(Some(right))
    } else if !cl && cf && !cr {
        Some(Some(dir))
    } else if !cl && cf && cr {
        if open_two(s, my, dir, right) {
            Some(Some(right))
        } else {
            None
        }
    } else if cl && !cf && !cr {
        Some(Some(left))
    } else if cl && !cf && cr {
        None
    } else if cl && cf && !cr {
        if open_two(s, my, dir, left) {
            Some(Some(dir))
        } else {
            None
        }
    } else {
        let fl = open_two(s, my, dir, left);
        let fr = open_two(s, my, dir, right);
        if !fl && !fr {
            None
        } else if !fl && fr {
            if farthest_distance(s, my.moved(dir).unwrap()) > farthest_distance(s, my.moved(left).unwrap()) {
                Some(Some(dir))
            } else {
                Some(Some(left))
            }
        } else if fl && !fr {
            if farthest_distance(s, my.moved(dir).unwrap()) > farthest_distance(s, my.moved(right).unwrap()) {
                Some(Some(dir))
            } else {
                Some(Some(right))
            }
        } else {
            Some(Some(right))
        }
    }
}

/// The move where no cut-off point is found: towards the farthest cell while
/// the two players share a region (avoiding the other head), else along the
/// wall on the right.
pub fn no_cut_off_step(grid: &Grid, me: PlayerId, my_pos: GridPosition, other_pos: GridPosition) -> (r: Option<
    Direction,
>)
    requires
        grid.wf(),
        my_pos == head_position(grid@, me),
        my_pos.valid(),
        other_pos.valid(),
    ensures
        r matches Some(d) ==> (my_pos.moved(d) matches Some(q) && !occupied(grid@, q)),
        other_pos == head_position(grid@, me.spec_other()) ==> match wall_follow(grid@, me) {
            Some(x) => r == x,
            None => (r is Some <==> can_step(grid@, my_pos)),
        },
{
    let farthest_point = find_farthest_point(my_pos, grid).1;
    let escape_plan = path_step(my_pos, farthest_point, grid);
    proof {
        if can_step(grid@, my_pos) {
            let e = choose|e: Direction| #[trigger] my_pos.moved(e) matches Some(q) && !occupied(grid@, q);
            lemma_farthest_moves(grid@, my_pos, farthest_point, e);
        }
        if escape_plan is Some {
            assert(my_pos.moved(escape_plan->0) matches Some(q) && !occupied(grid@, q));
        }
        lemma_head_unreachable(grid@, me);
    }
    if pathfind(my_pos, other_pos, grid).is_some() {
        let heads_meet = match escape_plan {
            Some(direction) => match my_pos.after_moved(direction) {
                Some(next_pos) => next_pos.borders_players_head(grid, me.other()),
                None => false,
            },
            None => false,
        };
        if heads_meet {
            avoid_head_step(grid, me, my_pos, other_pos)
        } else {
            escape_plan
        }
    } else {
        let direction = grid.player_head_direction(me);
        let available_directions = ideal_directions(grid, me);
        proof {
            assert forall|d: Direction| available_directions@.contains(d) implies (my_pos.moved(d) matches Some(q)
                && !occupied(grid@, q)) by {
                let k = choose|k: int| 0 <= k < available_directions@.len() && available_directions@[k] == d;
                assert(calm_directions(grid@, me).contains(d));
                broadcast use vstd::seq_lib::group_filter_ensures;

            }
        }
        let right = direction.right_of();
        let left = direction.left_of();
        let can_go_right = dir_in(&available_directions, right);
        let can_go_forward = dir_in(&available_directions, direction);
        let can_go_left = dir_in(&available_directions, left);
        if !can_go_left && !can_go_forward && !can_go_right {
            None
        } else if !can_go_left && !can_go_forward && can_go_right {
            Some(right)
        } else if !can_go_left && can_go_forward && !can_go_right {
            Some(direction)
        } else if !can_go_left && can_go_forward && can_go_right {
            if open_after(grid, my_pos, direction, right) {
                Some(right)
            } else {
                escape_plan
            }
        } else if can_go_left && !can_go_forward && !can_go_right {
            Some(left)
        } else if can_go_left && !can_go_forward && can_go_right {
            escape_plan
        } else if can_go_left && can_go_forward && !can_go_right {
            if open_after(grid, my_pos, direction, left) {
                Some(direction)
            } else {
                escape_plan
            }
        } else {
            let front_left_open = open_after(grid, my_pos, direction, left);
            let front_right_open = open_after(grid, my_pos, direction, right);
            if !front_left_open && !front_right_open {
                escape_plan
            } else if !front_left_open && front_right_open {
                let forward = my_pos.after_moved(direction).unwrap();
                let left_pos = my_pos.after_moved(left).unwrap();
                if find_farthest_point(forward, grid).0 > find_farthest_point(left_pos, grid).0 {
                    Some(direction)
                } else {
                    Some(left)
                }
            } else if front_left_open && !front_right_open {
                let forward = my_pos.after_moved(direction).unwrap();
                let right_pos = my_pos.after_moved(right).unwrap();
                if find_farthest_point(forward, grid).0 > find_farthest_point(right_pos, grid).0 {
                    Some(direction)
                } else {
                    Some(right)
                }
            } else {
                Some(right)
            }
        }
    }
}

impl JackBot for RipAndTear {
    open spec fn player(&self) -> PlayerId {
        self.my_player_id
    }

    fn my_player_id(&self) -> (r: PlayerId) {
        self.my_player_id
    }
}

} // verus!
