use vstd::prelude::*;

verus! {

/// One of the two players: O (`true`) or X (`false`).
#[derive(Debug, Clone, Copy, PartialEq, Eq, Hash, Structural)]
pub struct PlayerId(pub bool);

impl PlayerId {
    pub open spec fn spec_is_o(self) -> bool {
        self.0
    }

    pub open spec fn spec_other(self) -> PlayerId {
        PlayerId(!self.0)
    }

    pub fn new_o() -> (r: PlayerId)
        ensures
            r.spec_is_o(),
    {
        PlayerId(true)
    }

    pub fn new_x() -> (r: PlayerId)
        ensures
            !r.spec_is_o(),
    {
        PlayerId(false)
    }

    pub fn is_o(&self) -> (r: bool)
        ensures
            r == self.spec_is_o(),
    {
        self.0
    }

    pub fn is_x(&self) -> (r: bool)
        ensures
            r == !self.spec_is_o(),
    {
        !self.0
    }

    pub fn other(&self) -> (r: Self)
        ensures
            r == self.spec_other(),
    {
        PlayerId(!self.0)
    }
}

/// Taking the other player twice gives the player back, and no player is its
/// own opponent.
impl PlayerId {
    /// The name of the player: `O` or `X`.
    pub fn name(&self) -> (r: char)
        ensures
            r == if self.0 {
                'O'
            } else {
                'X'
            },
    {
        if self.0 {
            'O'
        } else {
            'X'
        }
    }
}

/// The other player of the other player is the player itself, and never
/// the same as the player.
pub proof fn lemma_other_involution(p: PlayerId)
    ensures
        p.spec_other().spec_other() == p,
        p.spec_other() != p,
        p.spec_other().spec_is_o() == !p.spec_is_o(),
{
}

/// There are exactly two players.
pub proof fn lemma_two_players(p: PlayerId)
    ensures
        p == PlayerId(true) || p == PlayerId(false),
{
}

} // verus!
