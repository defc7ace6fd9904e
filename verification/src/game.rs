//! The state of a game in progress and the rules of player movement and
//! bonus placement.

use crate::clock::Cooldown;
use crate::grid::step;
use crate::grid::Direction;
use crate::grid::Grid;
use crate::random::draw_below;
use crate::GameState;
use rand::rngs::StdRng;
use vstd::prelude::*;

verus! {

/// Time that must pass after a move attempt before the next, in nanoseconds.
pub const MOVE_DELAY: u64 = 300_000_000;

/// The player: where it stands, where it faces, and the timer that spaces
/// its moves.
#[derive(Debug, Clone, Copy, PartialEq, Eq)]
pub struct Player {
    pub i: usize,
    pub j: usize,
    pub facing: Direction,
    pub move_cooldown: Cooldown,
}

impl Player {
    /// The coordinates of the player.
    pub open spec fn pos(self) -> (int, int) {
        (self.i as int, self.j as int)
    }
}

/// A bonus waiting to be collected.
#[derive(Debug, Clone, Copy, PartialEq, Eq)]
pub struct Bonus {
    pub i: usize,
    pub j: usize,
}

impl Bonus {
    /// The coordinates of the bonus.
    pub open spec fn pos(self) -> (int, int) {
        (self.i as int, self.j as int)
    }
}

/// A game in progress.
#[derive(Debug, PartialEq, Eq)]
pub struct Game {
    pub map: Grid,
    pub player: Player,
    pub bonus: Option<Bonus>,
    pub score: i32,
}

/// What became of a frame's move attempt.
#[derive(Debug, Clone, Copy, PartialEq, Eq, Structural)]
pub enum MoveOutcome {
    /// The timer since the last attempt has not run out.
    Waiting,
    /// No direction was given.
    Idle,
    /// The player turned but could not leave its cell that way.
    Blocked,
    /// The player moved.
    Moved,
    /// The player moved onto the bonus and collected it.
    Collected,
}

/// What became of an attempt to place a bonus.
#[derive(Debug, Clone, Copy, PartialEq, Eq, Structural)]
pub enum BonusRoll {
    /// No bonus is due: the game is not running, or one is waiting.
    Skipped,
    /// The cell drawn is the player's; another draw is needed.
    Rejected,
    /// A bonus was placed.
    Placed,
}

impl Game {
    /// The level is a grid of at least one cell, and the player stands on
    /// one of its cells, as does the bonus if there is one.
    pub open spec fn wf(&self) -> bool {
        &&& self.map.wf()
        &&& self.map.width >= 1
        &&& self.map.length >= 1
        &&& self.map.in_bounds(self.player.pos())
        &&& self.bonus matches Some(b) ==> self.map.in_bounds(b.pos())
    }

    /// Whether the level is a grid of at least one cell on which the player
    /// stands, as does the bonus if there is one.
    pub fn valid(&self) -> (b: bool)
        ensures
            b == self.wf(),
    {
        if !self.map.valid() || self.map.width < 1 || self.map.length < 1 {
            return false;
        }
        if !self.map.contains(self.player.i, self.player.j) {
            return false;
        }
        match self.bonus {
            Some(b) => self.map.contains(b.i, b.j),
            None => true,
        }
    }

    /// The game at its start on the level `map`.
    pub open spec fn starting(map: Grid) -> Game {
        Game {
            map,
            player: Player {
                i: (map.width / 2) as usize,
                j: (map.length / 2) as usize,
                facing: Direction::North,
                move_cooldown: Cooldown { elapsed: 0, duration: MOVE_DELAY },
            },
            bonus: None,
            score: 0,
        }
    }

    /// A game at its start on the level `map`: the player stands in the
    /// middle, facing north, with a fresh move timer; there is no bonus and
    /// the score is zero.
    pub fn new(map: Grid) -> (game: Game)
        requires
            map.wf(),
            map.width >= 1,
            map.length >= 1,
        ensures
            game.wf(),
            game == Game::starting(map),
    {
        let player = Player {
            i: map.width / 2,
            j: map.length / 2,
            facing: Direction::North,
            move_cooldown: Cooldown::new(MOVE_DELAY),
        };
        Game { map, player, bonus: None, score: 0 }
    }

    /// Whether a bonus waits on the cell at `p`.
    pub open spec fn bonus_at(&self, p: (int, int)) -> bool {
        self.bonus matches Some(b) && b.pos() == p
    }

    /// Puts a bonus on the cell at column `i`, row `j`, unless the player
    /// stands there. Tells whether it did.
    pub fn place_bonus(&mut self, i: usize, j: usize) -> (placed: bool)
        requires
            old(self).wf(),
            old(self).map.in_bounds((i as int, j as int)),
        ensures
            placed == ((i as int, j as int) != old(self).player.pos()),
            placed ==> *final(self) == (Game { bonus: Some(Bonus { i, j }), ..*old(self) }),
            !placed ==> *final(self) == *old(self),
            final(self).wf(),
    {
        if i == self.player.i && j == self.player.j {
            return false;
        }
        self.bonus = Some(Bonus { i, j });
        true
    }
}

/// The direction that the direction keys held down ask for: up is east,
/// down is west, right is south and left is north. Of several keys held the
/// last in this order decides.
pub open spec fn heading_of(up: bool, down: bool, right: bool, left: bool) -> Option<Direction> {
    if left {
        Some(Direction::North)
    } else if right {
        Some(Direction::South)
    } else if down {
        Some(Direction::West)
    } else if up {
        Some(Direction::East)
    } else {
        None
    }
}

/// The direction that the direction keys held down ask for.
pub fn heading(up: bool, down: bool, right: bool, left: bool) -> (input: Option<Direction>)
    ensures
        input == heading_of(up, down, right, left),
{
    let mut input = None;
    if up {
        input = Some(Direction::East);
    }
    if down {
        input = Some(Direction::West);
    }
    if right {
        input = Some(Direction::South);
    }
    if left {
        input = Some(Direction::North);
    }
    input
}

/// The game after the player's move attempt of one frame.
///
/// The move timer runs on by `elapsed`. Until it has run out nothing else
/// happens. Then, if a direction is given, the player turns to it and the
/// timer starts anew; the player also moves one cell that way if the side of
/// its cell is open and there is a cell beyond. A move onto the bonus
/// collects it: the score goes up by one and the bonus is gone.
pub open spec fn moved(before: Game, elapsed: u64, input: Option<Direction>) -> Game {
    let timer = before.player.move_cooldown.after(elapsed);
    if !timer.done() || input is None {
        Game { player: Player { move_cooldown: timer, ..before.player }, ..before }
    } else {
        let d = input->0;
        let target = if before.map.passable(before.player.pos(), d) {
            step(before.player.pos(), d)
        } else {
            before.player.pos()
        };
        let player = Player {
            i: target.0 as usize,
            j: target.1 as usize,
            facing: d,
            move_cooldown: Cooldown { elapsed: 0, duration: timer.duration },
        };
        if before.map.passable(before.player.pos(), d) && before.bonus_at(target) {
            Game { player, bonus: None, score: (before.score + 1) as i32, ..before }
        } else {
            Game { player, ..before }
        }
    }
}

/// What the move attempt of one frame is reported as.
pub open spec fn move_outcome(before: Game, elapsed: u64, input: Option<Direction>) -> MoveOutcome {
    let timer = before.player.move_cooldown.after(elapsed);
    if !timer.done() {
        MoveOutcome::Waiting
    } else if input is None {
        MoveOutcome::Idle
    } else if !before.map.passable(before.player.pos(), input->0) {
        MoveOutcome::Blocked
    } else if before.bonus_at(step(before.player.pos(), input->0)) {
        MoveOutcome::Collected
    } else {
        MoveOutcome::Moved
    }
}

/// Makes the player's move attempt of one frame, `elapsed` nanoseconds
/// after the last one.
pub fn move_player(game: &mut Game, elapsed: u64, input: Option<Direction>) -> (outcome:
    MoveOutcome)
    requires
        old(game).wf(),
        old(game).score < i32::MAX,
    ensures
        *final(game) == moved(*old(game), elapsed, input),
        outcome == move_outcome(*old(game), elapsed, input),
        final(game).wf(),
{
    game.player.move_cooldown.tick(elapsed);
    if !game.player.move_cooldown.finished() {
        return MoveOutcome::Waiting;
    }
    let d = match input {
        Some(d) => d,
        None => {
            return MoveOutcome::Idle;
        },
    };
    let stepped = game.map.can_step(game.player.i, game.player.j, d);
    if stepped {
        let (ni, nj) = game.map.neighbor(game.player.i, game.player.j, d).unwrap();
        game.player.i = ni;
        game.player.j = nj;
    }
    game.player.facing = d;
    game.player.move_cooldown.reset();
    if !stepped {
        return MoveOutcome::Blocked;
    }
    match game.bonus {
        Some(b) => {
            if b.i == game.player.i && b.j == game.player.j {
                game.score = game.score + 1;
                game.bonus = None;
                return MoveOutcome::Collected;
            }
        },
        None => {},
    }
    MoveOutcome::Moved
}

/// Tries once to place a bonus on a cell drawn at random.
///
/// Nothing is drawn unless the game is running and no bonus waits. The
/// column is drawn before the row. A draw of the player's cell is rejected
/// and leaves the game as it was; the caller draws again.
pub fn spawn_bonus(game: &mut Game, state: &GameState, rng: &mut StdRng) -> (roll: BonusRoll)
    requires
        old(game).wf(),
    ensures
        final(game).wf(),
        roll == BonusRoll::Skipped <==> (*state != GameState::Game || old(game).bonus is Some),
        roll != BonusRoll::Placed ==> *final(game) == *old(game),
        roll == BonusRoll::Placed ==> {
            &&& final(game).bonus matches Some(b)
            &&& final(game).map.in_bounds(b.pos())
            &&& b.pos() != old(game).player.pos()
            &&& *final(game) == (Game { bonus: final(game).bonus, ..*old(game) })
        },
{
    if *state != GameState::Game || game.bonus.is_some() {
        return BonusRoll::Skipped;
    }
    let i = draw_below(rng, 0, game.map.width);
    let j = draw_below(rng, 0, game.map.length);
    if game.place_bonus(i, j) {
        BonusRoll::Placed
    } else {
        BonusRoll::Rejected
    }
}

} // verus!
