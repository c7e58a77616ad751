use vstd::prelude::*;

use crate::engine::direction::Direction;

verus! {

/// Width and height of the square playing field.
pub const GRID_SIZE: usize = 21;

/// Number of cells on the playing field.
pub const CELL_COUNT: usize = 441;

/// A cell of the playing field, stored as its row-major index
/// `x + y * GRID_SIZE`; `x` grows to the right and `y` grows upwards.
#[derive(Debug, Clone, Copy, PartialEq, Eq, Hash, Structural)]
pub struct GridPosition(pub usize);

/// Absolute difference of two integers.
pub open spec fn abs_diff(a: int, b: int) -> int {
    if a >= b {
        a - b
    } else {
        b - a
    }
}

impl GridPosition {
    /// The position lies on the playing field.
    pub open spec fn valid(self) -> bool {
        self.0 < CELL_COUNT
    }

    pub open spec fn col(self) -> int {
        self.0 as int % 21
    }

    pub open spec fn row(self) -> int {
        self.0 as int / 21
    }

    /// The cell one step away in direction `d`, if that cell is on the field.
    pub open spec fn moved(self, d: Direction) -> Option<GridPosition> {
        match d {
            Direction::PositiveY => if self.row() + 1 < 21 {
                Some(GridPosition((self.0 + 21) as usize))
            } else {
                None
            },
            Direction::NegativeY => if self.row() > 0 {
                Some(GridPosition((self.0 - 21) as usize))
            } else {
                None
            },
            Direction::PositiveX => if self.col() + 1 < 21 {
                Some(GridPosition((self.0 + 1) as usize))
            } else {
                None
            },
            Direction::NegativeX => if self.col() > 0 {
                Some(GridPosition((self.0 - 1) as usize))
            } else {
                None
            },
        }
    }

    /// `other` is one step away from `self`.
    pub open spec fn adjacent(self, other: GridPosition) -> bool {
        exists|d: Direction| #[trigger] self.moved(d) == Some(other)
    }

    /// Manhattan distance between two positions.
    pub open spec fn distance(self, other: GridPosition) -> int {
        abs_diff(self.col(), other.col()) + abs_diff(self.row(), other.row())
    }

    /// Creates the position of column `x` and row `y`, if it is on the field.
    pub fn new(x: usize, y: usize) -> (r: Option<GridPosition>)
        ensures
            r is Some <==> (x < GRID_SIZE && y < GRID_SIZE),
            r matches Some(p) ==> p.valid() && p.col() == x && p.row() == y,
    {
        if x < GRID_SIZE && y < GRID_SIZE {
            let p = GridPosition(x + y * GRID_SIZE);
            assert(p.col() == x && p.row() == y) by (nonlinear_arith)
                requires
                    p.0 == x + y * 21,
                    x < 21,
                    y < 21,
            ;
            Some(p)
        } else {
            None
        }
    }

    /// Creates the position with row-major index `i`, if it is on the field.
    pub fn new_from_usize(i: usize) -> (r: Option<GridPosition>)
        ensures
            r is Some <==> i < CELL_COUNT,
            r matches Some(p) ==> p.0 == i,
    {
        if i < CELL_COUNT {
            Some(GridPosition(i))
        } else {
            None
        }
    }

    /// The row-major index of the position.
    pub fn i(self) -> (r: usize)
        ensures
            r == self.0,
    {
        self.0
    }

    /// The column of the position.
    pub fn x(self) -> (r: usize)
        ensures
            r == self.col(),
    {
        self.0 % GRID_SIZE
    }

    /// The row of the position.
    pub fn y(self) -> (r: usize)
        ensures
            r == self.row(),
    {
        self.0 / GRID_SIZE
    }

    /// The column and the row of the position.
    pub fn to_xy(self) -> (r: (usize, usize))
        ensures
            r.0 == self.col(),
            r.1 == self.row(),
    {
        (self.x(), self.y())
    }

    /// The position one step away in direction `d`, or `None` where that
    /// step would leave the field.
    pub fn after_moved(self, d: Direction) -> (r: Option<GridPosition>)
        requires
            self.valid(),
        ensures
            r == self.moved(d),
            r matches Some(q) ==> q.valid(),
    {
        let x = self.0 % GRID_SIZE;
        let y = self.0 / GRID_SIZE;
        match d {
            Direction::PositiveY => if y + 1 < GRID_SIZE {
                Some(GridPosition(self.0 + GRID_SIZE))
            } else {
                None
            },
            Direction::NegativeY => if y > 0 {
                Some(GridPosition(self.0 - GRID_SIZE))
            } else {
                None
            },
            Direction::PositiveX => if x + 1 < GRID_SIZE {
                Some(GridPosition(self.0 + 1))
            } else {
                None
            },
            Direction::NegativeX => if x > 0 {
                Some(GridPosition(self.0 - 1))
            } else {
                None
            },
        }
    }

    /// The positions one step away that lie on the field, in the order of
    /// `Direction::all()`.
    pub fn neighbors(self) -> (r: Vec<GridPosition>)
        requires
            self.valid(),
        ensures
            r@.len() <= 4,
            r@.no_duplicates(),
            forall|k: int| 0 <= k < r@.len() ==> (#[trigger] r@[k]).valid(),
            forall|q: GridPosition| r@.contains(q) <==> self.adjacent(q),
    {
        let mut r: Vec<GridPosition> = Vec::new();
        let m0 = self.after_moved(Direction::PositiveX);
        let m1 = self.after_moved(Direction::PositiveY);
        let m2 = self.after_moved(Direction::NegativeX);
        let m3 = self.after_moved(Direction::NegativeY);
        broadcast use vstd::seq_lib::group_seq_properties;
        if let Some(q) = m0 {
            r.push(q);
        }
        assert(forall|q: GridPosition| r@.contains(q) <==> m0 == Some(q));
        if let Some(q) = m1 {
            r.push(q);
        }
        assert(forall|q: GridPosition| r@.contains(q) <==> (m0 == Some(q) || m1 == Some(q)));
        if let Some(q) = m2 {
            r.push(q);
        }
        assert(forall|q: GridPosition|
            r@.contains(q) <==> (m0 == Some(q) || m1 == Some(q) || m2 == Some(q)));
        if let Some(q) = m3 {
            r.push(q);
        }
        assert(forall|q: GridPosition|
            r@.contains(q) <==> (m0 == Some(q) || m1 == Some(q) || m2 == Some(q) || m3 == Some(q)));
        proof {
            assert forall|q: GridPosition| r@.contains(q) <==> self.adjacent(q) by {
                if self.adjacent(q) {
                    let d = choose|d: Direction| #[trigger] self.moved(d) == Some(q);
                    match d {
                        Direction::PositiveX => assert(r@.contains(q)),
                        Direction::PositiveY => assert(r@.contains(q)),
                        Direction::NegativeX => assert(r@.contains(q)),
                        Direction::NegativeY => assert(r@.contains(q)),
                    }
                }
                if r@.contains(q) {
                    let k = choose|k: int| 0 <= k < r@.len() && r@[k] == q;
                    if m0 == Some(q) {
                        assert(self.moved(Direction::PositiveX) == Some(q));
                    } else if m1 == Some(q) {
                        assert(self.moved(Direction::PositiveY) == Some(q));
                    } else if m2 == Some(q) {
                        assert(self.moved(Direction::NegativeX) == Some(q));
                    } else {
                        assert(self.moved(Direction::NegativeY) == Some(q));
                    }
                }
            }
        }
        r
    }

    /// The Manhattan distance between two positions.
    pub fn manhattan_distance(&self, other: &GridPosition) -> (r: usize)
        ensures
            r == self.distance(*other),
    {
        let (x1, y1) = self.to_xy();
        let (x2, y2) = other.to_xy();
        let dx = if x1 >= x2 { x1 - x2 } else { x2 - x1 };
        let dy = if y1 >= y2 { y1 - y2 } else { y2 - y1 };
        dx + dy
    }

    /// All positions of the field, in row-major order.
    pub fn iter_positions() -> (r: Vec<GridPosition>)
        ensures
            r@.len() == CELL_COUNT,
            forall|k: int| 0 <= k < CELL_COUNT ==> #[trigger] r@[k] == GridPosition(k as usize),
    {
        let mut r: Vec<GridPosition> = Vec::new();
        let mut k: usize = 0;
        while k < CELL_COUNT
            invariant
                k <= CELL_COUNT,
                r@.len() == k,
                forall|j: int| 0 <= j < k ==> #[trigger] r@[j] == GridPosition(j as usize),
            decreases CELL_COUNT - k,
        {
            r.push(GridPosition(k));
            k = k + 1;
        }
        r
    }
}

/// Stepping in one direction and then in the reverse direction returns to
/// the start, and a step always reaches a different, adjacent cell at
/// Manhattan distance one.
pub proof fn lemma_step_back(p: GridPosition, d: Direction)
    requires
        p.valid(),
        p.moved(d) is Some,
    ensures
        p.moved(d).unwrap().valid(),
        p.moved(d).unwrap().moved(d.reversed()) == Some(p),
        p.moved(d).unwrap() != p,
        p.distance(p.moved(d).unwrap()) == 1,
{
}

} // verus!
