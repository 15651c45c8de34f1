//! Placeholder gameplay data holders: a grid position and the game's
//! player/obstacle aggregate.

use vstd::prelude::*;

use crate::obstacle::Obstacle;
use crate::player::Player;

verus! {

/// A position on the playfield grid.
#[derive(Clone, Copy, PartialEq, Eq, Structural, Debug)]
pub struct Position {
    pub x: i32,
    pub y: i32,
}

impl Default for Position {
    /// The origin.
    fn default() -> (r: Position)
        ensures
            r.x == 0,
            r.y == 0,
    {
        Position { x: 0, y: 0 }
    }
}

/// The gameplay aggregate: the player and the obstacles in play.
pub struct Game {
    pub player: Player,
    pub obstacles: Vec<Obstacle>,
}

impl Game {
    /// A fresh game holds a default player and a single default obstacle.
    pub fn new() -> (r: Game)
        ensures
            r.player.position.x == 0,
            r.player.position.y == 0,
            !r.player.is_moving,
            r.obstacles@.len() == 1,
            r.obstacles@[0].position.x == 0,
            r.obstacles@[0].position.y == 0,
    {
        let mut obstacles: Vec<Obstacle> = Vec::new();
        obstacles.push(Obstacle::default());
        Game { player: Player::default(), obstacles }
    }
}

} // verus!
