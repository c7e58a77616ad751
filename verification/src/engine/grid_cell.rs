use vstd::prelude::*;

use crate::engine::direction::Direction;
use crate::engine::player_id::PlayerId;

verus! {

/// The content of one cell of the playing field.
#[derive(Debug, Clone, Copy, PartialEq, Eq, Hash, Structural)]
pub enum GridCell {
    /// Nobody has been here.
    Empty,
    /// The trail of a player: who left it, the direction the player moved in
    /// when leaving the cell, and the frame in which that happened.
    Tail(PlayerId, Direction, usize),
    /// Where a player currently is, and the direction of its last move.
    Head(PlayerId, Direction),
}

impl GridCell {
    /// The cell is the head of `player`.
    pub open spec fn spec_is_players_head(self, player: PlayerId) -> bool {
        self matches GridCell::Head(p, _) && p == player
    }

    pub fn is_empty(&self) -> (r: bool)
        ensures
            r == (*self == GridCell::Empty),
    {
        *self == GridCell::Empty
    }

    pub fn is_not_empty(&self) -> (r: bool)
        ensures
            r == (*self != GridCell::Empty),
    {
        *self != GridCell::Empty
    }

    pub fn is_head(&self) -> (r: bool)
        ensures
            r == (*self is Head),
    {
        matches!(self, GridCell::Head(..))
    }

    pub fn is_tail(&self) -> (r: bool)
        ensures
            r == (*self is Tail),
    {
        matches!(self, GridCell::Tail(..))
    }

    pub fn is_players_head(&self, player: PlayerId) -> (r: bool)
        ensures
            r == self.spec_is_players_head(player),
    {
        if let GridCell::Head(p, ..) = self {
            player == *p
        } else {
            false
        }
    }

    /// The mark drawn for the cell, after a space: `.` when empty, `o` or
    /// `x` for a trail, and for a head an arrow in its direction.
    pub open spec fn spec_symbol(self) -> char {
        match self {
            GridCell::Empty => '.',
            GridCell::Tail(p, _, _) => if p.0 {
                'o'
            } else {
                'x'
            },
            GridCell::Head(_, d) => match d {
                Direction::PositiveY => '^',
                Direction::NegativeY => 'v',
                Direction::PositiveX => '>',
                Direction::NegativeX => '<',
            },
        }
    }

    /// The mark drawn for the cell, `spec_symbol`.
    pub fn symbol(&self) -> (r: char)
        ensures
            r == self.spec_symbol(),
    {
        match self {
            GridCell::Empty => '.',
            GridCell::Tail(p, _, _) => if p.is_o() {
                'o'
            } else {
                'x'
            },
            GridCell::Head(_, d) => match d {
                Direction::PositiveY => '^',
                Direction::NegativeY => 'v',
                Direction::PositiveX => '>',
                Direction::NegativeX => '<',
            },
        }
    }
}

} // verus!
