//! The measures of the level that the game is played on.

use vstd::prelude::*;

verus! {

/// Number of columns of the level.
pub const MAP_SIZE_I: usize = 12;

/// Number of rows of the level.
pub const MAP_SIZE_J: usize = 16;

/// Least size of a section, for the first pass of the generator.
pub const MIN_SECTION_SIZE: usize = 14;

/// Least size of a room, for the second pass of the generator.
pub const MIN_ROOM_SIZE: usize = 3;

} // verus!
