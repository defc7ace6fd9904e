//! Guards: patrols along shortest routes between waypoints, detection of
//! the player along the line of sight, and the growth of their number with
//! the score.

use crate::game::Game;
use crate::grid::step;
use crate::grid::Cell;
use crate::grid::Direction;
use crate::grid::Grid;
use crate::pathfinding::astar;
use crate::pathfinding::find_path;
use crate::pathfinding::route;
use crate::random::draw_below;
use crate::random::draw_through;
use crate::GameState;
use rand::rngs::StdRng;
use vstd::prelude::*;

verus! {

/// Number of cells ahead of its own that a guard sees.
pub const VISION: usize = 3;

/// Number of guards that arrive together.
pub const GUARD_BATCH: usize = 2;

/// Number of points of score that it takes to call one more guard.
pub const SCORE_PER_GUARD: usize = 3;

/// Least number of waypoints of a new guard.
pub const MIN_PATROL_POINTS: usize = 2;

/// Greatest number of waypoints of a new guard.
pub const MAX_PATROL_POINTS: usize = 4;

/// A guard: where it stands, where it faces, the waypoints it visits in
/// turn, the waypoint it last set out for, and the way there that is still
/// before it, if it is under way.
#[derive(Debug, PartialEq, Eq)]
pub struct Guard {
    pub i: usize,
    pub j: usize,
    pub rotation: Direction,
    pub current_path: Option<Vec<Cell>>,
    pub pp: usize,
    pub patrol_points: Vec<(usize, usize)>,
}

/// The guards of a game.
#[derive(Debug, PartialEq, Eq)]
pub struct GuardRoster {
    pub guards: Vec<Guard>,
}

/// The direction that one faces after going from `from` to `to`, having
/// faced `current` before. A change of column decides before a change of
/// row; where neither changes, the facing stays.
pub open spec fn facing_after(from: (int, int), to: (int, int), current: Direction) -> Direction {
    if from.0 < to.0 {
        Direction::East
    } else if from.0 > to.0 {
        Direction::West
    } else if from.1 < to.1 {
        Direction::South
    } else if from.1 > to.1 {
        Direction::North
    } else {
        current
    }
}

/// The cell `m` steps from `p` towards `d`.
pub open spec fn ahead(p: (int, int), d: Direction, m: int) -> (int, int) {
    match d {
        Direction::North => (p.0, p.1 - m),
        Direction::East => (p.0 + m, p.1),
        Direction::South => (p.0, p.1 + m),
        Direction::West => (p.0 - m, p.1),
    }
}

impl Guard {
    /// The coordinates of the guard.
    pub open spec fn pos(self) -> (int, int) {
        (self.i as int, self.j as int)
    }

    /// The guard has a waypoint to go to, and a way that it is on is not
    /// empty.
    pub open spec fn wf(self) -> bool {
        &&& self.patrol_points.len() > 0
        &&& self.current_path matches Some(path) ==> path.len() > 0
    }

    /// Which waypoint the guard sets out for next: the one after the last
    /// it set out for, or the first after the last of the list.
    pub open spec fn next_point(self) -> int {
        if self.pp + 1 >= self.patrol_points.len() {
            0
        } else {
            self.pp + 1
        }
    }

    /// The coordinates of the waypoint that the guard sets out for next.
    pub open spec fn next_target(self) -> (int, int) {
        let t = self.patrol_points[self.next_point()];
        (t.0 as int, t.1 as int)
    }

    /// Whether the guard's sight reaches the cell `m` steps ahead: every
    /// cell before it on the way can be left towards the next.
    pub open spec fn sight_reaches(self, grid: Grid, m: int) -> bool {
        forall|k: int|
            0 <= k < m ==> grid.passable(
                #[trigger] ahead(self.pos(), self.rotation, k),
                self.rotation,
            )
    }

    /// Whether the guard sees someone at `p`: `p` is the guard's own cell or
    /// one of the [`VISION`] cells ahead of it, and the sight reaches it.
    pub open spec fn sees(self, grid: Grid, p: (int, int)) -> bool {
        exists|m: int|
            0 <= m <= VISION && #[trigger] ahead(self.pos(), self.rotation, m) == p
                && self.sight_reaches(grid, m)
    }

    /// Whether `after` is this guard one patrol tick later.
    ///
    /// A guard without a way sets out for its next waypoint if a way leads
    /// there: it then holds the shortest one that the search finds, and the
    /// waypoint counts as set out for. A guard that stands on its next
    /// waypoint has reached it without a way: the waypoint counts as set out
    /// for, and the one after it is next. If no way leads to the waypoint,
    /// the guard is as before, and tries the same waypoint again on the next
    /// tick. A guard with a way takes the last cell off it, turns towards
    /// that cell and enters it; with the last cell taken the way is gone.
    pub open spec fn patrolled(self, grid: Grid, after: Guard) -> bool {
        match self.current_path {
            None => {
                let s = self.pos();
                let t = self.next_target();
                if s == t {
                    &&& after.current_path is None
                    &&& after.pp == self.next_point()
                    &&& after.i == self.i
                    &&& after.j == self.j
                    &&& after.rotation == self.rotation
                    &&& after.patrol_points == self.patrol_points
                } else if grid.reachable(s, t) {
                    &&& after.current_path matches Some(path)
                    &&& astar(grid, s, t) == Some(path@)
                    &&& grid.joins(route(s, path@), s, t)
                    &&& forall|k: int|
                        0 <= k < path.len() ==> (#[trigger] path[k]) == grid.at(path[k].pos())
                    &&& forall|w: Seq<(int, int)>| #[trigger]
                        grid.joins(w, s, t) ==> path.len() <= w.len() - 1
                    &&& after.pp == self.next_point()
                    &&& after.i == self.i
                    &&& after.j == self.j
                    &&& after.rotation == self.rotation
                    &&& after.patrol_points == self.patrol_points
                } else {
                    after == self
                }
            },
            Some(path) => {
                let cell = path@.last();
                &&& after.i == cell.i
                &&& after.j == cell.j
                &&& after.rotation == facing_after(self.pos(), cell.pos(), self.rotation)
                &&& after.pp == self.pp
                &&& after.patrol_points == self.patrol_points
                &&& if path.len() == 1 {
                    after.current_path is None
                } else {
                    after.current_path matches Some(rest) && rest@ == path@.drop_last()
                }
            },
        }
    }

    /// Whether the guard has a waypoint to go to and is on no empty way.
    pub fn valid(&self) -> (b: bool)
        ensures
            b == self.wf(),
    {
        if self.patrol_points.len() == 0 {
            return false;
        }
        match &self.current_path {
            Some(path) => path.len() > 0,
            None => true,
        }
    }

    /// A guard at column `i`, row `j` that faces north and has not yet set
    /// out for any of its waypoints.
    pub fn new(i: usize, j: usize, patrol_points: Vec<(usize, usize)>) -> (guard: Guard)
        requires
            patrol_points.len() > 0,
        ensures
            guard.wf(),
            guard.i == i,
            guard.j == j,
            guard.rotation == Direction::North,
            guard.current_path is None,
            guard.pp == 0,
            guard.patrol_points == patrol_points,
    {
        Guard { i, j, rotation: Direction::North, current_path: None, pp: 0, patrol_points }
    }

    /// Moves the guard on by one patrol tick.
    pub fn patrol(&mut self, grid: &Grid)
        requires
            old(self).wf(),
            grid.wf(),
        ensures
            old(self).patrolled(*grid, *final(self)),
            final(self).wf(),
    {
        match &mut self.current_path {
            None => {
                let next = if self.pp >= self.patrol_points.len() - 1 {
                    0
                } else {
                    self.pp + 1
                };
                let target = self.patrol_points[next];
                if target.0 == self.i && target.1 == self.j {
                    self.pp = next;
                    return ;
                }
                let found = match (grid.cell(self.i, self.j), grid.cell(target.0, target.1)) {
                    (Some(start), Some(goal)) => find_path(grid, &start, &goal),
                    _ => {
                        proof {
                            let s = self.pos();
                            let t = self.next_target();
                            assert forall|w: Seq<(int, int)>| !grid.joins(w, s, t) by {
                                if grid.joins(w, s, t) {
                                    grid.lemma_walk_in_bounds(w, w.len() - 1);
                                }
                            }
                        }
                        None
                    },
                };
                if found.is_some() {
                    self.pp = next;
                    self.current_path = found;
                }
            },
            Some(path) => {
                let cell = path.pop().unwrap();
                if self.i < cell.i {
                    self.rotation = Direction::East;
                } else if self.i > cell.i {
                    self.rotation = Direction::West;
                } else if self.j < cell.j {
                    self.rotation = Direction::South;
                } else if self.j > cell.j {
                    self.rotation = Direction::North;
                }
                self.i = cell.i;
                self.j = cell.j;
                if path.len() == 0 {
                    self.current_path = None;
                }
            },
        }
    }
}

impl Guard {
    /// Whether the guard sees someone at column `pi`, row `pj`.
    ///
    /// The sight starts on the guard's own cell and goes on cell by cell the
    /// way the guard faces, for [`VISION`] cells at most. It ends on the
    /// first cell that cannot be left that way: that cell is still seen, and
    /// nothing beyond it is.
    pub fn can_see(&self, grid: &Grid, pi: usize, pj: usize) -> (seen: bool)
        requires
            grid.wf(),
        ensures
            seen == self.sees(*grid, (pi as int, pj as int)),
    {
        let ghost p = (pi as int, pj as int);
        let mut ci: usize = self.i;
        let mut cj: usize = self.j;
        let mut m: usize = 0;
        loop
            invariant
                grid.wf(),
                p == (pi as int, pj as int),
                m <= VISION,
                (ci as int, cj as int) == ahead(self.pos(), self.rotation, m as int),
                self.sight_reaches(*grid, m as int),
                forall|k: int| 0 <= k < m ==> #[trigger] ahead(self.pos(), self.rotation, k) != p,
            decreases VISION - m,
        {
            if ci == pi && cj == pj {
                return true;
            }
            if m == VISION || !grid.can_step(ci, cj, self.rotation) {
                proof {
                    assert forall|k: int|
                        0 <= k <= VISION && #[trigger] ahead(self.pos(), self.rotation, k) == p
                        implies !self.sight_reaches(*grid, k) by {
                        if k > m {
                            assert(!grid.passable(
                                ahead(self.pos(), self.rotation, m as int),
                                self.rotation,
                            ));
                        }
                    }
                }
                return false;
            }
            let next = grid.neighbor(ci, cj, self.rotation).unwrap();
            proof {
                let far = m as int + 1;
                assert(ahead(self.pos(), self.rotation, far) == step(
                    ahead(self.pos(), self.rotation, m as int),
                    self.rotation,
                ));
                assert forall|k: int| 0 <= k < far implies grid.passable(
                    #[trigger] ahead(self.pos(), self.rotation, k),
                    self.rotation,
                ) by {}
            }
            ci = next.0;
            cj = next.1;
            m = m + 1;
        }
    }
}

/// A wall ends the sight: a guard does not see the cell `m` steps ahead if
/// a cell nearer to it on the way cannot be left towards the next.
pub proof fn lemma_wall_ends_sight(guard: Guard, grid: Grid, k: int, m: int)
    requires
        0 <= k < m,
        !grid.passable(ahead(guard.pos(), guard.rotation, k), guard.rotation),
    ensures
        !guard.sees(grid, ahead(guard.pos(), guard.rotation, m)),
{
    let p = ahead(guard.pos(), guard.rotation, m);
    assert forall|n: int|
        0 <= n <= VISION && #[trigger] ahead(guard.pos(), guard.rotation, n) == p
        implies !guard.sight_reaches(grid, n) by {
        assert(n == m);
    }
}

/// A guard sees no further than [`VISION`] cells ahead.
pub proof fn lemma_sight_is_bounded(guard: Guard, grid: Grid, m: int)
    requires
        m > VISION,
    ensures
        !guard.sees(grid, ahead(guard.pos(), guard.rotation, m)),
{
    let p = ahead(guard.pos(), guard.rotation, m);
    assert forall|n: int|
        0 <= n <= VISION && #[trigger] ahead(guard.pos(), guard.rotation, n) == p
        implies !guard.sight_reaches(grid, n) by {
        assert(n == m);
    }
}

/// A guard on the grid whose next waypoint cannot be reached is left as it
/// is by a patrol tick: it has no way, and the waypoint it tries next is the
/// same.
pub proof fn lemma_unreachable_waypoint_is_retried(guard: Guard, grid: Grid, after: Guard)
    requires
        grid.in_bounds(guard.pos()),
        guard.current_path is None,
        !grid.reachable(guard.pos(), guard.next_target()),
        guard.patrolled(grid, after),
    ensures
        after == guard,
        after.current_path is None,
        after.next_target() == guard.next_target(),
{
    let s = guard.pos();
    assert(grid.joins(seq![s], s, s));
}

/// Whether a check with `count` guards present and `score` points scored
/// calls a new batch: there is room for one more guard at one guard for
/// every [`SCORE_PER_GUARD`] points.
pub open spec fn batch_due(count: int, score: int) -> bool {
    (count + 1) * SCORE_PER_GUARD <= score
}

/// Whether a check with `count` guards present and `score` points scored
/// calls a new batch.
pub fn spawn_due(count: usize, score: i32) -> (due: bool)
    ensures
        due == batch_due(count as int, score as int),
{
    if score < 0 {
        return false;
    }
    let room = score as usize / SCORE_PER_GUARD;
    count < room
}

impl GuardRoster {
    /// Whether every guard has a waypoint to go to, and none is on an empty
    /// way.
    pub open spec fn wf(self) -> bool {
        forall|k: int| 0 <= k < self.guards.len() ==> (#[trigger] self.guards[k]).wf()
    }

    /// Whether some guard sees someone at `p`.
    pub open spec fn any_sees(self, grid: Grid, p: (int, int)) -> bool {
        exists|k: int| 0 <= k < self.guards.len() && (#[trigger] self.guards[k]).sees(grid, p)
    }

    /// Whether every guard has a waypoint to go to, and none is on an empty
    /// way.
    pub fn valid(&self) -> (b: bool)
        ensures
            b == self.wf(),
    {
        let mut k: usize = 0;
        while k < self.guards.len()
            invariant
                k <= self.guards.len(),
                forall|x: int| 0 <= x < k ==> (#[trigger] self.guards[x]).wf(),
            decreases self.guards.len() - k,
        {
            if !self.guards[k].valid() {
                return false;
            }
            k += 1;
        }
        true
    }

    /// A roster without guards.
    pub fn new() -> (roster: GuardRoster)
        ensures
            roster.guards@ == Seq::<Guard>::empty(),
            roster.wf(),
    {
        GuardRoster { guards: Vec::new() }
    }
}

/// Moves every guard on by one patrol tick, if the game is running.
pub fn patrol(game: &Game, guards: &mut GuardRoster, state: &GameState)
    requires
        game.map.wf(),
        old(guards).wf(),
    ensures
        final(guards).wf(),
        final(guards).guards.len() == old(guards).guards.len(),
        *state != GameState::Game ==> *final(guards) == *old(guards),
        *state == GameState::Game ==> forall|k: int|
            0 <= k < old(guards).guards.len() ==> (#[trigger] old(guards).guards[k]).patrolled(
                game.map,
                final(guards).guards[k],
            ),
{
    if *state != GameState::Game {
        return ;
    }
    let mut k: usize = 0;
    while k < guards.guards.len()
        invariant
            game.map.wf(),
            k <= guards.guards.len(),
            guards.guards.len() == old(guards).guards.len(),
            forall|x: int| 0 <= x < guards.guards.len() ==> (#[trigger] guards.guards[x]).wf(),
            forall|x: int|
                0 <= x < k ==> (#[trigger] old(guards).guards[x]).patrolled(
                    game.map,
                    guards.guards[x],
                ),
            forall|x: int|
                k <= x < guards.guards.len() ==> guards.guards[x] == old(guards).guards[x],
        decreases guards.guards.len() - k,
    {
        guards.guards[k].patrol(&game.map);
        k += 1;
    }
}

/// Ends the game if a guard sees the player.
pub fn lookout(game: &Game, guards: &GuardRoster, state: &mut GameState)
    requires
        game.map.wf(),
    ensures
        *final(state) == if guards.any_sees(game.map, game.player.pos()) {
            GameState::GameOver
        } else {
            *old(state)
        },
{
    let mut k: usize = 0;
    while k < guards.guards.len()
        invariant
            game.map.wf(),
            k <= guards.guards.len(),
            *state == *old(state),
            forall|x: int| 0 <= x < k ==> !(#[trigger] guards.guards[x]).sees(
                game.map,
                game.player.pos(),
            ),
        decreases guards.guards.len() - k,
    {
        if guards.guards[k].can_see(&game.map, game.player.i, game.player.j) {
            *state = GameState::GameOver;
            return ;
        }
        k += 1;
    }
}

/// Calls a batch of [`GUARD_BATCH`] new guards if the score asks for it,
/// and tells how many came.
///
/// Each new guard gets between [`MIN_PATROL_POINTS`] and
/// [`MAX_PATROL_POINTS`] waypoints and a place to start, all drawn at random
/// among the cells of the level; it faces north and has not yet set out.
/// The guards already there are left as they are.
pub fn spawn_guard(game: &Game, guards: &mut GuardRoster, rng: &mut StdRng) -> (spawned: usize)
    requires
        game.wf(),
        old(guards).wf(),
    ensures
        final(guards).wf(),
        spawned == if batch_due(old(guards).guards.len() as int, game.score as int) {
            GUARD_BATCH
        } else {
            0
        },
        final(guards).guards.len() == old(guards).guards.len() + spawned,
        forall|k: int|
            0 <= k < old(guards).guards.len() ==> final(guards).guards[k] == old(guards).guards[k],
        forall|k: int|
            old(guards).guards.len() <= k < final(guards).guards.len() ==> newcomer(
                game.map,
                #[trigger] final(guards).guards[k],
            ),
{
    if !spawn_due(guards.guards.len(), game.score) {
        return 0;
    }
    let mut n: usize = 0;
    while n < GUARD_BATCH
        invariant
            game.wf(),
            n <= GUARD_BATCH,
            guards.guards.len() == old(guards).guards.len() + n,
            forall|k: int| 0 <= k < guards.guards.len() ==> (#[trigger] guards.guards[k]).wf(),
            forall|k: int|
                0 <= k < old(guards).guards.len() ==> guards.guards[k] == old(guards).guards[k],
            forall|k: int|
                old(guards).guards.len() <= k < guards.guards.len() ==> newcomer(
                    game.map,
                    #[trigger] guards.guards[k],
                ),
        decreases GUARD_BATCH - n,
    {
        let count = draw_through(rng, MIN_PATROL_POINTS, MAX_PATROL_POINTS);
        let mut patrol_points: Vec<(usize, usize)> = Vec::new();
        while patrol_points.len() < count
            invariant
                game.wf(),
                patrol_points.len() <= count,
                forall|k: int|
                    0 <= k < patrol_points.len() ==> game.map.in_bounds(
                        ((#[trigger] patrol_points[k]).0 as int, patrol_points[k].1 as int),
                    ),
            decreases count - patrol_points.len(),
        {
            let i = draw_below(rng, 0, game.map.width);
            let j = draw_below(rng, 0, game.map.length);
            patrol_points.push((i, j));
        }
        let i = draw_below(rng, 0, game.map.width);
        let j = draw_below(rng, 0, game.map.length);
        let guard = Guard::new(i, j, patrol_points);
        guards.guards.push(guard);
        n += 1;
    }
    GUARD_BATCH
}

/// Whether `guard` is as a guard is that has just come to the level `grid`:
/// it stands on a cell of the level, faces north, has not yet set out, and
/// has between [`MIN_PATROL_POINTS`] and [`MAX_PATROL_POINTS`] waypoints
/// among the cells of the level.
pub open spec fn newcomer(grid: Grid, guard: Guard) -> bool {
    &&& grid.in_bounds(guard.pos())
    &&& guard.rotation == Direction::North
    &&& guard.current_path is None
    &&& guard.pp == 0
    &&& MIN_PATROL_POINTS <= guard.patrol_points.len() <= MAX_PATROL_POINTS
    &&& forall|k: int|
        0 <= k < guard.patrol_points.len() ==> grid.in_bounds(
            ((#[trigger] guard.patrol_points[k]).0 as int, guard.patrol_points[k].1 as int),
        )
}

} // verus!
