//! The obstacle data holder.

use vstd::prelude::*;

use crate::game::Position;

verus! {

/// An obstacle: where it sits on the playfield.
#[derive(Clone, Copy, PartialEq, Eq, Structural, Debug)]
pub struct Obstacle {
    pub position: Position,
}

impl Default for Obstacle {
    /// A fresh obstacle sits at the origin.
    fn default() -> (r: Obstacle)
        ensures
            r.position.x == 0,
            r.position.y == 0,
    {
        Obstacle { position: Position::default() }
    }
}

} // verus!
