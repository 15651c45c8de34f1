//! The player data holder.

use vstd::prelude::*;

use crate::game::Position;

verus! {

/// The player: a position and whether it is currently moving.
#[derive(Clone, Copy, PartialEq, Eq, Structural, Debug)]
pub struct Player {
    pub position: Position,
    pub is_moving: bool,
}

impl Default for Player {
    /// A fresh player stands still at the origin.
    fn default() -> (r: Player)
        ensures
            r.position.x == 0,
            r.position.y == 0,
            !r.is_moving,
    {
        Player { position: Position::default(), is_moving: false }
    }
}

} // verus!
