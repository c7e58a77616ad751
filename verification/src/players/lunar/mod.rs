use vstd::prelude::*;

use crate::engine::grid::Grid;
use crate::engine::grid_cell::GridCell;
use crate::engine::grid_position::{GridPosition, CELL_COUNT, GRID_SIZE};
use crate::engine::player_id::PlayerId;

pub mod rngesus;

verus! {

/// A bot whose moves are not written yet.
#[derive(Debug, PartialEq, Eq, Structural)]
pub struct Lunar {
    pub id: PlayerId,
}

impl Lunar {
    /// The bot for player `my_player_id`.
    pub fn new(my_player_id: PlayerId) -> (r: Self)
        ensures
            r.id == my_player_id,
    {
        Lunar { id: my_player_id }
    }
}

impl GridPosition {
    /// The index of the cell, `x + y * GRID_SIZE`.
    pub fn value(self) -> (r: usize)
        ensures
            r == self.0,
    {
        self.0
    }

    /// The position of index `i`, which must lie on the field.
    pub fn new_unchecked(i: usize) -> (r: Self)
        requires
            i < CELL_COUNT,
        ensures
            r.0 == i,
            r.valid(),
    {
        GridPosition(i)
    }
}

impl Grid {
    /// The cells as rows: row `y` holds the cells of that row, column by
    /// column.
    pub fn cells(self) -> (r: Vec<Vec<GridCell>>)
        requires
            self@.len() == CELL_COUNT,
        ensures
            r@.len() == GRID_SIZE,
            forall|y: int| 0 <= y < GRID_SIZE ==> (#[trigger] r@[y])@.len() == GRID_SIZE,
            forall|y: int, x: int|
                0 <= y < GRID_SIZE && 0 <= x < GRID_SIZE ==> (#[trigger] r@[y]@[x]) == self@[y * 21 + x],
    {
        let mut rows: Vec<Vec<GridCell>> = Vec::new();
        let mut y: usize = 0;
        while y < GRID_SIZE
            invariant
                self@.len() == CELL_COUNT,
                y <= GRID_SIZE,
                rows@.len() == y,
                forall|j: int| 0 <= j < y ==> (#[trigger] rows@[j])@.len() == GRID_SIZE,
                forall|j: int, x: int| 0 <= j < y && 0 <= x < GRID_SIZE ==> (#[trigger] rows@[j]@[x]) == self@[j * 21 + x],
            decreases GRID_SIZE - y,
        {
            let mut row: Vec<GridCell> = Vec::new();
            let mut x: usize = 0;
            while x < GRID_SIZE
                invariant
                    self@.len() == CELL_COUNT,
                    y < GRID_SIZE,
                    x <= GRID_SIZE,
                    row@.len() == x,
                    forall|k: int| 0 <= k < x ==> row@[k] == self@[y * 21 + k],
                decreases GRID_SIZE - x,
            {
                proof {
                    assert(y * 21 + x < 441) by (nonlinear_arith)
                        requires
                            y < 21,
                            x < 21,
                    ;
                }
                row.push(*self.get_cell(GridPosition(y * GRID_SIZE + x)));
                x = x + 1;
            }
            rows.push(row);
            y = y + 1;
        }
        rows
    }
}

} // verus!
