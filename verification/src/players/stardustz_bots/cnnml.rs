//! The parts of the learning bot that work on plain values: square tables,
//! the view of the field around the head, and turning the model's answer
//! into a move.

use vstd::prelude::*;

use crate::engine::direction::Direction;
use crate::engine::grid::{head_direction, head_position, occupied, Grid};
use crate::engine::grid_cell::GridCell;
use crate::engine::grid_position::{GridPosition, CELL_COUNT};
use crate::engine::player_id::PlayerId;

verus! {

/// `usize::isqrt`: the square root of `n`, rounded down.
#[verifier::external_body]
fn isqrt(n: usize) -> (r: usize)
    ensures
        r * r <= n < (r + 1) * (r + 1),
{
    n.isqrt()
}

/// The side of a square table of `len` entries: the square root of `len`,
/// rounded down.
pub open spec fn side_of(len: nat, side: int) -> bool {
    side * side <= len < (side + 1) * (side + 1)
}

/// A table has one side.
pub proof fn lemma_side_unique(len: nat, a: int, b: int)
    requires
        a >= 0,
        b >= 0,
        side_of(len, a),
        side_of(len, b),
    ensures
        a == b,
{
    if a < b {
        assert((a + 1) * (a + 1) <= b * b) by (nonlinear_arith)
            requires
                0 <= a < b,
        ;
    }
    if b < a {
        assert((b + 1) * (b + 1) <= a * a) by (nonlinear_arith)
            requires
                0 <= b < a,
        ;
    }
}

/// The side of the square table `slice`.
pub fn get_size<T>(slice: &[T]) -> (r: usize)
    ensures
        side_of(slice@.len(), r as int),
{
    isqrt(slice.len())
}

/// The entry of column `x` and row `y` of the square table `slice`, if its
/// index `x + y * side` lies in the table; that index must fit in a `usize`.
pub fn get_2d<T>(slice: &[T], x: usize, y: usize) -> (r: Option<&T>)
    requires
        forall|side: int| side >= 0 && side_of(slice@.len(), side) ==> x + y * side <= usize::MAX,
    ensures
        forall|side: int|
            side >= 0 && side_of(slice@.len(), side) ==> (if x + y * side < slice@.len() {
                r == Some(&slice@[x + y * side])
            } else {
                r is None
            }),
{
    let size = isqrt(slice.len());
    proof {
        assert(side_of(slice@.len(), size as int));
    }
    let i = x + y * size;
    proof {
        assert forall|side: int| side >= 0 && side_of(slice@.len(), side) implies side == size by {
            lemma_side_unique(slice@.len(), side, size as int);
        }
    }
    slice.get(i)
}

/// The entry of column `x` and row `y` of the square table `slice`, to be
/// changed, if its index `x + y * side` lies in the table.
pub fn get_2d_mut<T>(slice: &mut [T], x: usize, y: usize) -> (r: Option<&mut T>)
    requires
        forall|side: int| side >= 0 && side_of(old(slice)@.len(), side) ==> x + y * side <= usize::MAX,
    ensures
        forall|side: int|
            side >= 0 && side_of(old(slice)@.len(), side) ==> (if x + y * side < old(slice)@.len() {
                r matches Some(e) && *e == old(slice)@[x + y * side] && final(slice)@ == old(slice)@.update(
                    x + y * side,
                    *final(e),
                )
            } else {
                r is None && final(slice)@ == old(slice)@
            }),
{
    let len = slice.len();
    let size = isqrt(len);
    proof {
        assert(side_of(old(slice)@.len(), size as int));
    }
    let i = x + y * size;
    proof {
        assert forall|side: int| side >= 0 && side_of(old(slice)@.len(), side) implies side == size by {
            lemma_side_unique(old(slice)@.len(), side, size as int);
        }
    }
    if i < slice.len() {
        Some(&mut slice[i])
    } else {
        None
    }
}

/// The answer of the model: turn left, go on, or turn right.
#[derive(Debug, Clone, Copy, PartialEq, Eq, Structural)]
pub enum ModelOutputDirection {
    Left,
    Up,
    Right,
}

impl ModelOutputDirection {
    /// The answer of index `i` among the model's three outputs.
    pub fn from_index(i: usize) -> (r: Self)
        requires
            i < 3,
        ensures
            i == 0 ==> r == ModelOutputDirection::Left,
            i == 1 ==> r == ModelOutputDirection::Up,
            i == 2 ==> r == ModelOutputDirection::Right,
    {
        if i == 0 {
            ModelOutputDirection::Left
        } else if i == 1 {
            ModelOutputDirection::Up
        } else {
            ModelOutputDirection::Right
        }
    }
}

/// The move of `player` for the model's answer `output`, relative to the
/// direction its head points in.
pub fn parse_model_output(grid: &Grid, player: PlayerId, output: ModelOutputDirection) -> (r: Direction)
    requires
        grid.wf(),
    ensures
        r == match output {
            ModelOutputDirection::Left => head_direction(grid@, player).turned_left(),
            ModelOutputDirection::Up => head_direction(grid@, player),
            ModelOutputDirection::Right => head_direction(grid@, player).turned_right(),
        },
{
    let current_dir = grid.player_head_direction(player);
    match output {
        ModelOutputDirection::Left => current_dir.left_of(),
        ModelOutputDirection::Up => current_dir,
        ModelOutputDirection::Right => current_dir.right_of(),
    }
}

/// The cell of column `x` and row `y` is off the field or not empty.
pub open spec fn blocked_at(s: Seq<GridCell>, x: int, y: int) -> bool {
    x < 0 || y < 0 || x >= 21 || y >= 21 || occupied(s, GridPosition((x + y * 21) as usize))
}

/// The cell of column `x` and row `y` is off the field or not empty.
pub fn pos_is_blocked(grid: &Grid, x: i32, y: i32) -> (r: bool)
    requires
        grid@.len() == CELL_COUNT,
    ensures
        r == blocked_at(grid@, x as int, y as int),
{
    if x < 0 || y < 0 {
        return true;
    }
    let x = x as usize;
    let y = y as usize;
    match GridPosition::new(x, y) {
        Some(pos) => {
            proof {
                assert(pos.0 == x + y * 21) by (nonlinear_arith)
                    requires
                        pos.0 % 21 == x,
                        pos.0 / 21 == y,
                ;
            }
            pos.is_not_empty(grid)
        },
        None => true,
    }
}

/// `pos` is missing or its cell is not empty.
pub fn pos_is_blocked_grid_pos(grid: &Grid, pos: Option<GridPosition>) -> (r: bool)
    requires
        grid@.len() == CELL_COUNT,
        pos matches Some(p) ==> p.valid(),
    ensures
        r == match pos {
            Some(p) => occupied(grid@, p),
            None => true,
        },
{
    match pos {
        Some(p) => p.is_not_empty(grid),
        None => true,
    }
}

/// The side of the view around the head.
pub const SCREEN_SIZE: usize = 7;

/// The entry of the view at offset `(dx, dy)` from the head, for offsets
/// from -3 to 2; every other entry of the view is clear.
pub open spec fn screen_entry(s: Seq<GridCell>, head: GridPosition, k: int) -> bool {
    let dx = k % 7 - 3;
    let dy = k / 7 - 3;
    if dx < 3 && dy < 3 {
        blocked_at(s, head.col() + dx, head.row() + dy)
    } else {
        false
    }
}

/// The 7 by 7 view of the cells around the head of `player`, row by row:
/// `true` for a blocked cell. Only offsets -3 to 2 from the head are looked
/// at; the last row and column stay clear.
pub fn get_screen(grid: &Grid, player: PlayerId) -> (r: Vec<bool>)
    requires
        grid.wf(),
    ensures
        r@.len() == 49,
        forall|k: int| 0 <= k < 49 ==> r@[k] == screen_entry(grid@, head_position(grid@, player), k),
{
    let head_pos = player.get_head_pos(grid);
    let hx = head_pos.x() as i32;
    let hy = head_pos.y() as i32;
    let mut screen: Vec<bool> = Vec::new();
    let mut k: usize = 0;
    while k < 49
        invariant
            grid.wf(),
            head_pos == head_position(grid@, player),
            hx == head_pos.col(),
            hy == head_pos.row(),
            0 <= hx < 21,
            0 <= hy < 21,
            k <= 49,
            screen@.len() == k,
            forall|j: int| 0 <= j < k ==> screen@[j] == screen_entry(grid@, head_pos, j),
        decreases 49 - k,
    {
        let dx = (k % 7) as i32 - 3;
        let dy = (k / 7) as i32 - 3;
        if dx < 3 && dy < 3 {
            screen.push(pos_is_blocked(grid, hx + dx, hy + dy));
        } else {
            screen.push(false);
        }
        k = k + 1;
    }
    screen
}

/// The cell `(x, y)` of a 7 by 7 view whose entry lands at `(nx, ny)` when
/// the view is turned so that `new_up` points up.
pub open spec fn rotation_source(new_up: Direction, nx: int, ny: int) -> (int, int) {
    match new_up {
        Direction::PositiveY => (nx, ny),
        Direction::PositiveX => (ny, 6 - nx),
        Direction::NegativeY => (6 - nx, 6 - ny),
        Direction::NegativeX => (6 - ny, nx),
    }
}

/// Where the entry `(x, y)` of a 7 by 7 view lands when the view is turned
/// so that `new_up` points up.
pub open spec fn rotation_target(new_up: Direction, x: int, y: int) -> (int, int) {
    match new_up {
        Direction::PositiveY => (x, y),
        Direction::PositiveX => (6 - y, x),
        Direction::NegativeY => (6 - x, 6 - y),
        Direction::NegativeX => (y, 6 - x),
    }
}

/// Turning the view moves each entry to a place of the view, and
/// `rotation_source` undoes `rotation_target`.
pub proof fn lemma_rotation_inverse(new_up: Direction, x: int, y: int)
    requires
        0 <= x < 7,
        0 <= y < 7,
    ensures
        0 <= rotation_target(new_up, x, y).0 < 7,
        0 <= rotation_target(new_up, x, y).1 < 7,
        rotation_source(new_up, rotation_target(new_up, x, y).0, rotation_target(new_up, x, y).1) == (x, y),
        rotation_target(new_up, rotation_source(new_up, x, y).0, rotation_source(new_up, x, y).1) == (x, y),
{
}

/// The 7 by 7 view `current`, row by row, turned so that `new_up` points up.
pub fn rotate_grid<T: Copy>(current: &Vec<T>, new_up: Direction) -> (r: Vec<T>)
    requires
        current@.len() == 49,
    ensures
        r@.len() == 49,
        forall|nx: int, ny: int|
            0 <= nx < 7 && 0 <= ny < 7 ==> r@[nx + ny * 7] == current@[rotation_source(new_up, nx, ny).0
                + rotation_source(new_up, nx, ny).1 * 7],
        forall|x: int, y: int|
            0 <= x < 7 && 0 <= y < 7 ==> r@[rotation_target(new_up, x, y).0 + rotation_target(new_up, x, y).1 * 7]
                == current@[x + y * 7],
{
    let size: usize = 7;
    let mut result: Vec<T> = Vec::new();
    let mut ny: usize = 0;
    while ny < size
        invariant
            size == 7,
            current@.len() == 49,
            ny <= 7,
            result@.len() == ny * 7,
            forall|a: int, b: int|
                0 <= a < 7 && 0 <= b < ny ==> result@[a + b * 7] == current@[rotation_source(new_up, a, b).0
                    + rotation_source(new_up, a, b).1 * 7],
        decreases 7 - ny,
    {
        let mut nx: usize = 0;
        while nx < size
            invariant
                size == 7,
                current@.len() == 49,
                ny < 7,
                nx <= 7,
                result@.len() == ny * 7 + nx,
                forall|a: int, b: int|
                    0 <= a < 7 && 0 <= b < ny ==> result@[a + b * 7] == current@[rotation_source(new_up, a, b).0
                        + rotation_source(new_up, a, b).1 * 7],
                forall|a: int|
                    0 <= a < nx ==> result@[a + ny * 7] == current@[rotation_source(new_up, a, ny as int).0
                        + rotation_source(new_up, a, ny as int).1 * 7],
            decreases 7 - nx,
        {
            let (x, y) = match new_up {
                Direction::PositiveY => (nx, ny),
                Direction::PositiveX => (ny, size - 1 - nx),
                Direction::NegativeY => (size - 1 - nx, size - 1 - ny),
                Direction::NegativeX => (size - 1 - ny, nx),
            };
            result.push(current[x + y * size]);
            nx = nx + 1;
        }
        ny = ny + 1;
    }
    proof {
        assert forall|x: int, y: int| 0 <= x < 7 && 0 <= y < 7 implies result@[rotation_target(new_up, x, y).0
            + rotation_target(new_up, x, y).1 * 7] == current@[x + y * 7] by {
            let t = rotation_target(new_up, x, y);
            assert(rotation_source(new_up, t.0, t.1) == (x, y));
        }
    }
    result
}

} // verus!
