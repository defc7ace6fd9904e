//! Algorithmic core of a top-down stealth maze game: the cell grid, the level
//! generator that partitions it into rooms, shortest-route search, guard
//! patrols with line-of-sight detection, and the rules of player movement.

use vstd::prelude::*;

pub mod clock;
pub mod consts;
pub mod game;
pub mod grid;
pub mod guard;
pub mod levelgen;
pub mod pathfinding;
mod random;
mod search;
pub mod simulation;

pub use grid::Cell;
pub use grid::Direction;
pub use grid::Grid;
pub use grid::SideView;

verus! {

/// The screen the program is on.
#[derive(Debug, Clone, Copy, PartialEq, Eq, Hash, Structural)]
pub enum GameState {
    Game,
    Menu,
    Splash,
    GameOver,
}

} // verus!
