use vstd::prelude::*;

verus! {

/// The four directions a bot can move in.
/// Positive directions are up and to the right.
#[derive(Debug, Clone, Copy, PartialEq, Eq, Hash, Structural)]
pub enum Direction {
    /// Up
    PositiveY,
    /// Down
    NegativeY,
    /// Right
    PositiveX,
    /// Left
    NegativeX,
}

/// The directions in counterclockwise order, starting with `PositiveX`.
pub open spec fn counterclockwise() -> Seq<Direction> {
    seq![Direction::PositiveX, Direction::PositiveY, Direction::NegativeX, Direction::NegativeY]
}

impl Direction {
    /// The direction a quarter turn counterclockwise of this one.
    pub open spec fn turned_left(self) -> Direction {
        match self {
            Direction::PositiveY => Direction::NegativeX,
            Direction::NegativeY => Direction::PositiveX,
            Direction::PositiveX => Direction::PositiveY,
            Direction::NegativeX => Direction::NegativeY,
        }
    }

    /// The direction a quarter turn clockwise of this one.
    pub open spec fn turned_right(self) -> Direction {
        match self {
            Direction::PositiveY => Direction::PositiveX,
            Direction::NegativeY => Direction::NegativeX,
            Direction::PositiveX => Direction::NegativeY,
            Direction::NegativeX => Direction::PositiveY,
        }
    }

    /// The direction pointing the other way.
    pub open spec fn reversed(self) -> Direction {
        match self {
            Direction::PositiveY => Direction::NegativeY,
            Direction::NegativeY => Direction::PositiveY,
            Direction::PositiveX => Direction::NegativeX,
            Direction::NegativeX => Direction::PositiveX,
        }
    }

    /// Returns all directions, in counterclockwise order starting with PositiveX.
    pub fn all() -> (r: Vec<Direction>)
        ensures
            r@ == counterclockwise(),
    {
        let a = Self::all_slice();
        let mut v: Vec<Direction> = Vec::new();
        v.push(a[0]);
        v.push(a[1]);
        v.push(a[2]);
        v.push(a[3]);
        v
    }

    /// Returns an array of all directions, in counterclockwise order starting with PositiveX.
    pub fn all_slice() -> (r: [Direction; 4])
        ensures
            r@ == counterclockwise(),
    {
        let r = [Direction::PositiveX, Direction::PositiveY, Direction::NegativeX, Direction::NegativeY];
        assert(r@ =~= counterclockwise());
        r
    }

    pub fn up() -> (r: Self)
        ensures
            r == Direction::PositiveY,
    {
        Direction::PositiveY
    }

    pub fn down() -> (r: Self)
        ensures
            r == Direction::NegativeY,
    {
        Direction::NegativeY
    }

    pub fn left() -> (r: Self)
        ensures
            r == Direction::NegativeX,
    {
        Direction::NegativeX
    }

    pub fn right() -> (r: Self)
        ensures
            r == Direction::PositiveX,
    {
        Direction::PositiveX
    }

    /// Returns the direction counterclockwise of this direction.
    pub fn left_of(&self) -> (r: Self)
        ensures
            r == self.turned_left(),
    {
        match self {
            Direction::PositiveY => Direction::NegativeX,
            Direction::NegativeY => Direction::PositiveX,
            Direction::PositiveX => Direction::PositiveY,
            Direction::NegativeX => Direction::NegativeY,
        }
    }

    /// Returns the direction clockwise of this direction.
    pub fn right_of(&self) -> (r: Self)
        ensures
            r == self.turned_right(),
    {
        match self {
            Direction::PositiveY => Direction::PositiveX,
            Direction::NegativeY => Direction::NegativeX,
            Direction::PositiveX => Direction::NegativeY,
            Direction::NegativeX => Direction::PositiveY,
        }
    }
}

/// Turning left and turning right undo each other.
pub proof fn lemma_left_right_inverse(d: Direction)
    ensures
        d.turned_left().turned_right() == d,
        d.turned_right().turned_left() == d,
{
}

/// Four quarter turns in the same sense bring a direction back to itself,
/// and two of them point it the other way.
pub proof fn lemma_full_turn(d: Direction)
    ensures
        d.turned_left().turned_left() == d.reversed(),
        d.turned_right().turned_right() == d.reversed(),
        d.turned_left().turned_left().turned_left().turned_left() == d,
        d.turned_right().turned_right().turned_right().turned_right() == d,
        d.turned_left() != d,
        d.turned_right() != d,
        d.reversed() != d,
{
}

/// The list of all directions holds every direction exactly once, and each
/// entry is the left turn of the one before it.
pub proof fn lemma_counterclockwise_order()
    ensures
        forall|d: Direction| #[trigger] counterclockwise().contains(d),
        forall|i: int, j: int| 0 <= i < j < 4 ==> counterclockwise()[i] != counterclockwise()[j],
        forall|i: int| 0 <= i < 3 ==> counterclockwise()[i + 1] == #[trigger] counterclockwise()[i].turned_left(),
        counterclockwise()[0] == counterclockwise()[3].turned_left(),
{
    assert forall|d: Direction| #[trigger] counterclockwise().contains(d) by {
        match d {
            Direction::PositiveX => assert(counterclockwise()[0] == d),
            Direction::PositiveY => assert(counterclockwise()[1] == d),
            Direction::NegativeX => assert(counterclockwise()[2] == d),
            Direction::NegativeY => assert(counterclockwise()[3] == d),
        }
    }
}

} // verus!
