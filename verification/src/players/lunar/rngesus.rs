use vstd::prelude::*;

use crate::engine::player_id::PlayerId;
use crate::rand::RNG;

verus! {

/// A bot that is meant to pick among its safe moves at random; its moves
/// are not written yet.
pub struct Rngesus<const BRAIN: u8> {
    pub id: PlayerId,
    pub pcg: RNG,
}

impl<const BRAIN: u8> Rngesus<BRAIN> {
    /// The bot for player `my_player_id`, with a generator seeded with 0.
    pub fn new(my_player_id: PlayerId) -> (r: Self)
        ensures
            r.id == my_player_id,
            r.pcg.state == 0,
    {
        Rngesus { id: my_player_id, pcg: RNG::new(0) }
    }
}

} // verus!
