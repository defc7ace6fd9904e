//! The simulation loop: one call a frame that lets the time of the frame
//! pass and does what has come due.
//!
//! The player's move attempt, the call for new guards and the lookout of the
//! guards happen every frame while the game runs. The guards patrol once
//! every [`PATROL_PERIOD`], and a bonus is tried for once every
//! [`BONUS_PERIOD`]; the clocks for both run whatever the screen is.

use crate::clock::Cadence;
use crate::game::move_outcome;
use crate::game::move_player;
use crate::game::moved;
use crate::game::spawn_bonus;
use crate::game::BonusRoll;
use crate::game::Game;
use crate::game::MoveOutcome;
use crate::grid::Direction;
use crate::grid::Grid;
use crate::guard::batch_due;
use crate::guard::lookout;
use crate::guard::newcomer;
use crate::guard::patrol;
use crate::guard::spawn_guard;
use crate::guard::Guard;
use crate::guard::GuardRoster;
use crate::guard::GUARD_BATCH;
use crate::GameState;
use rand::rngs::StdRng;
use vstd::prelude::*;

verus! {

/// Time between two patrol ticks, in nanoseconds.
pub const PATROL_PERIOD: u64 = 1_000_000_000;

/// Time between two tries for a bonus, in nanoseconds.
pub const BONUS_PERIOD: u64 = 5_000_000_000;

/// All that the simulation keeps from one frame to the next.
#[derive(Debug, PartialEq, Eq)]
pub struct Simulation {
    pub game: Game,
    pub guards: GuardRoster,
    pub state: GameState,
    pub patrol_clock: Cadence,
    pub bonus_clock: Cadence,
}

/// What happened in a frame.
#[derive(Debug, Clone, Copy, PartialEq, Eq)]
pub struct TickReport {
    /// What became of the player's move attempt, if the game runs.
    pub moved: Option<MoveOutcome>,
    /// Number of patrol ticks that the guards made.
    pub patrol_ticks: u64,
    /// What became of the try for a bonus. After a rejected try the caller
    /// tries again until a bonus is placed.
    pub bonus: BonusRoll,
    /// Number of guards that came.
    pub spawned: usize,
    /// Whether a guard saw the player.
    pub caught: bool,
}

/// Whether each guard of `after` is the guard at its place in `before` one
/// patrol tick later.
pub open spec fn all_patrolled(grid: Grid, before: Seq<Guard>, after: Seq<Guard>) -> bool {
    &&& after.len() == before.len()
    &&& forall|k: int| 0 <= k < before.len() ==> (#[trigger] before[k]).patrolled(grid, after[k])
}

/// Whether `after` are the guards of `before` after `n` patrol ticks.
pub open spec fn patrolled_times(grid: Grid, before: Seq<Guard>, after: Seq<Guard>, n: nat) -> bool
    decreases n,
{
    if n == 0 {
        after =~= before
    } else {
        exists|mid: Seq<Guard>|
            #![trigger mid.len()]
            mid.len() == before.len() && all_patrolled(grid, before, mid) && patrolled_times(
                grid,
                mid,
                after,
                (n - 1) as nat,
            )
    }
}

/// One more patrol tick after `n` makes `n + 1`.
pub proof fn lemma_patrolled_once_more(
    grid: Grid,
    before: Seq<Guard>,
    mid: Seq<Guard>,
    after: Seq<Guard>,
    n: nat,
)
    requires
        patrolled_times(grid, before, mid, n),
        all_patrolled(grid, mid, after),
    ensures
        patrolled_times(grid, before, after, n + 1),
    decreases n,
{
    if n == 0 {
        assert(mid =~= before);
        assert(after.len() == before.len() && all_patrolled(grid, before, after)
            && patrolled_times(grid, after, after, 0));
    } else {
        let first = choose|first: Seq<Guard>|
            #![trigger first.len()]
            first.len() == before.len() && all_patrolled(grid, before, first) && patrolled_times(
                grid,
                first,
                mid,
                (n - 1) as nat,
            );
        lemma_patrolled_once_more(grid, first, mid, after, (n - 1) as nat);
        assert(first.len() == before.len() && all_patrolled(grid, before, first)
            && patrolled_times(grid, first, after, n));
    }
}

impl Simulation {
    /// The game and the guards are in order, and both clocks run.
    pub open spec fn wf(&self) -> bool {
        &&& self.game.wf()
        &&& self.guards.wf()
        &&& self.patrol_clock.wf()
        &&& self.bonus_clock.wf()
    }

    /// Whether the game runs.
    pub open spec fn running(&self) -> bool {
        self.state == GameState::Game
    }

    /// The game after the player's move attempt of a frame, if the game
    /// runs.
    pub open spec fn game_moved(&self, elapsed: u64, input: Option<Direction>) -> Game {
        if self.running() {
            moved(self.game, elapsed, input)
        } else {
            self.game
        }
    }

    /// Whether `after` and `report` are what a frame of `elapsed`
    /// nanoseconds with the input `input` makes of this simulation.
    ///
    /// Both clocks run on. While the game runs, the player makes its move
    /// attempt; the guards then make one patrol tick for each period of the
    /// patrol clock that is over; if a period of the bonus clock is over, a
    /// bonus is tried for once, on a cell drawn at random; a batch of guards
    /// comes if the score asks for it; and at last the guards look out, which
    /// ends the game if one sees the player. While it does not run, only the
    /// clocks change.
    pub open spec fn ticked(
        &self,
        elapsed: u64,
        input: Option<Direction>,
        after: Simulation,
        report: TickReport,
    ) -> bool {
        let stepped = self.game_moved(elapsed, input);
        let count = self.guards.guards.len();
        &&& after.patrol_clock == self.patrol_clock.after(elapsed)
        &&& after.bonus_clock == self.bonus_clock.after(elapsed)
        &&& report.moved == if self.running() {
            Some(move_outcome(self.game, elapsed, input))
        } else {
            None
        }
        &&& report.patrol_ticks == if self.running() {
            self.patrol_clock.due_after(elapsed)
        } else {
            0
        }
        &&& report.bonus == BonusRoll::Skipped <==> (!self.running()
            || self.bonus_clock.due_after(elapsed) == 0 || stepped.bonus is Some)
        &&& report.bonus != BonusRoll::Placed ==> after.game == stepped
        &&& report.bonus == BonusRoll::Placed ==> {
            &&& after.game.bonus matches Some(b)
            &&& stepped.map.in_bounds(b.pos())
            &&& b.pos() != stepped.player.pos()
            &&& after.game == (Game { bonus: after.game.bonus, ..stepped })
        }
        &&& report.spawned == if self.running() && batch_due(count as int, stepped.score as int) {
            GUARD_BATCH
        } else {
            0
        }
        &&& after.guards.guards.len() == count + report.spawned
        &&& patrolled_times(
            stepped.map,
            self.guards.guards@,
            after.guards.guards@.subrange(0, count as int),
            report.patrol_ticks as nat,
        )
        &&& forall|k: int|
            count <= k < after.guards.guards.len() ==> newcomer(
                stepped.map,
                #[trigger] after.guards.guards[k],
            )
        &&& report.caught == (self.running() && after.guards.any_sees(
            after.game.map,
            after.game.player.pos(),
        ))
        &&& after.state == if report.caught {
            GameState::GameOver
        } else {
            self.state
        }
    }

    /// A simulation at its start on the level `map`, on the screen `state`,
    /// without guards and with both clocks at zero.
    pub fn new(map: Grid, state: GameState) -> (simulation: Simulation)
        requires
            map.wf(),
            map.width >= 1,
            map.length >= 1,
        ensures
            simulation.wf(),
            simulation.game == Game::starting(map),
            simulation.guards.guards@ == Seq::<Guard>::empty(),
            simulation.state == state,
            simulation.patrol_clock == (Cadence { period: PATROL_PERIOD, accumulated: 0 }),
            simulation.bonus_clock == (Cadence { period: BONUS_PERIOD, accumulated: 0 }),
    {
        Simulation {
            game: Game::new(map),
            guards: GuardRoster::new(),
            state,
            patrol_clock: Cadence::new(PATROL_PERIOD),
            bonus_clock: Cadence::new(BONUS_PERIOD),
        }
    }

    /// Whether the game and the guards are in order and both clocks run.
    pub fn valid(&self) -> (b: bool)
        ensures
            b == self.wf(),
    {
        self.game.valid() && self.guards.valid() && self.patrol_clock.valid()
            && self.bonus_clock.valid()
    }

    /// Simulates a frame of `elapsed` nanoseconds in which the player asks
    /// to go towards `input`.
    pub fn tick(&mut self, elapsed: u64, input: Option<Direction>, rng: &mut StdRng) -> (report:
        TickReport)
        requires
            old(self).wf(),
            old(self).game.score < i32::MAX,
        ensures
            old(self).ticked(elapsed, input, *final(self), report),
            final(self).wf(),
    {
        let patrol_due = self.patrol_clock.advance(elapsed);
        let bonus_due = self.bonus_clock.advance(elapsed);
        if self.state != GameState::Game {
            return TickReport {
                moved: None,
                patrol_ticks: 0,
                bonus: BonusRoll::Skipped,
                spawned: 0,
                caught: false,
            };
        }
        let outcome = move_player(&mut self.game, elapsed, input);
        let ghost stepped = self.game;
        let ghost count = self.guards.guards.len();
        let mut ticks: u64 = 0;
        while ticks < patrol_due
            invariant
                ticks <= patrol_due,
                self.game == stepped,
                stepped.wf(),
                self.state == GameState::Game,
                self.guards.wf(),
                self.guards.guards.len() == count,
                self.patrol_clock == old(self).patrol_clock.after(elapsed),
                self.bonus_clock == old(self).bonus_clock.after(elapsed),
                self.patrol_clock.wf(),
                self.bonus_clock.wf(),
                patrolled_times(
                    stepped.map,
                    old(self).guards.guards@,
                    self.guards.guards@,
                    ticks as nat,
                ),
            decreases patrol_due - ticks,
        {
            let ghost before = self.guards.guards@;
            patrol(&self.game, &mut self.guards, &self.state);
            proof {
                assert(all_patrolled(stepped.map, before, self.guards.guards@));
                lemma_patrolled_once_more(
                    stepped.map,
                    old(self).guards.guards@,
                    before,
                    self.guards.guards@,
                    ticks as nat,
                );
            }
            ticks += 1;
        }
        let ghost marched = self.guards.guards@;
        let bonus = if bonus_due > 0 {
            spawn_bonus(&mut self.game, &self.state, rng)
        } else {
            BonusRoll::Skipped
        };
        let spawned = spawn_guard(&self.game, &mut self.guards, rng);
        let ghost was = self.state;
        lookout(&self.game, &self.guards, &mut self.state);
        let caught = self.state == GameState::GameOver;
        proof {
            assert(self.guards.guards@.subrange(0, count as int) =~= marched);
        }
        TickReport { moved: Some(outcome), patrol_ticks: patrol_due, bonus, spawned, caught }
    }
}

} // verus!
