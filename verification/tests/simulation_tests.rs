use errio::clock::Cadence;
use errio::game::{spawn_bonus, Bonus, BonusRoll, Game, MoveOutcome, MOVE_DELAY};
use errio::grid::{Direction, Grid};
use errio::guard::Guard;
use errio::simulation::{Simulation, TickReport, BONUS_PERIOD, PATROL_PERIOD};
use errio::GameState;
use rand::rngs::StdRng;
use rand::SeedableRng;

const FRAME: u64 = 16_666_667;

fn facing(i: usize, j: usize, rotation: Direction) -> Guard {
    let mut guard = Guard::new(i, j, vec![(i, j)]);
    guard.rotation = rotation;
    guard
}

#[test]
fn new_simulation_is_at_its_start() {
    let simulation = Simulation::new(Grid::blank(12, 16), GameState::Game);
    assert!(simulation.valid());
    assert_eq!(simulation.game, Game::new(Grid::blank(12, 16)));
    assert!(simulation.guards.guards.is_empty());
    assert_eq!(simulation.state, GameState::Game);
    assert_eq!(simulation.patrol_clock, Cadence { period: 1_000_000_000, accumulated: 0 });
    assert_eq!(simulation.bonus_clock, Cadence { period: 5_000_000_000, accumulated: 0 });
    assert_eq!(PATROL_PERIOD, 1_000_000_000);
    assert_eq!(BONUS_PERIOD, 5_000_000_000);
}

#[test]
fn quiet_frame_only_lets_time_pass() {
    let mut rng = StdRng::seed_from_u64(1);
    let mut simulation = Simulation::new(Grid::blank(12, 16), GameState::Game);
    let report = simulation.tick(FRAME, None, &mut rng);
    assert_eq!(
        report,
        TickReport {
            moved: Some(MoveOutcome::Waiting),
            patrol_ticks: 0,
            bonus: BonusRoll::Skipped,
            spawned: 0,
            caught: false,
        }
    );
    assert_eq!(simulation.patrol_clock.accumulated, FRAME);
    assert_eq!(simulation.bonus_clock.accumulated, FRAME);
    assert_eq!(simulation.game.player.move_cooldown.elapsed, FRAME);
    assert_eq!((simulation.game.player.i, simulation.game.player.j), (6, 8));
}

#[test]
fn outside_the_game_only_the_clocks_run() {
    for state in [GameState::Menu, GameState::Splash, GameState::GameOver] {
        let mut rng = StdRng::seed_from_u64(1);
        let mut simulation = Simulation::new(Grid::blank(12, 16), state);
        simulation.guards.guards.push(facing(6, 9, Direction::North));
        simulation.guards.guards[0].patrol_points = vec![(0, 0), (3, 3)];
        simulation.game.score = 30;
        let report = simulation.tick(7_300_000_000, Some(Direction::East), &mut rng);
        assert_eq!(
            report,
            TickReport {
                moved: None,
                patrol_ticks: 0,
                bonus: BonusRoll::Skipped,
                spawned: 0,
                caught: false,
            }
        );
        assert_eq!(simulation.state, state);
        assert_eq!(simulation.patrol_clock.accumulated, 300_000_000);
        assert_eq!(simulation.bonus_clock.accumulated, 2_300_000_000);
        let mut expected = Game::new(Grid::blank(12, 16));
        expected.score = 30;
        assert_eq!(simulation.game, expected);
        assert_eq!(simulation.guards.guards.len(), 1);
        assert_eq!(simulation.guards.guards[0].current_path, None);
    }
}

#[test]
fn player_moves_once_the_cooldown_is_over() {
    let mut rng = StdRng::seed_from_u64(1);
    let mut simulation = Simulation::new(Grid::blank(12, 16), GameState::Game);
    let mut frames = 0;
    loop {
        frames += 1;
        let report = simulation.tick(FRAME, Some(Direction::South), &mut rng);
        if report.moved == Some(MoveOutcome::Moved) {
            break;
        }
        assert_eq!(report.moved, Some(MoveOutcome::Waiting));
    }
    assert_eq!(frames, 18);
    assert_eq!((simulation.game.player.i, simulation.game.player.j), (6, 9));
    assert_eq!(simulation.game.player.facing, Direction::South);
}

#[test]
fn guards_patrol_once_a_second() {
    let mut rng = StdRng::seed_from_u64(1);
    let mut simulation = Simulation::new(Grid::blank(12, 16), GameState::Game);
    simulation.guards.guards.push(Guard::new(0, 0, vec![(0, 0), (3, 0)]));
    let mut ticks = 0;
    for _ in 0..60 {
        ticks += simulation.tick(FRAME, None, &mut rng).patrol_ticks;
    }
    assert_eq!(ticks, 1);
    assert_eq!(simulation.guards.guards[0].pp, 1);
    assert_eq!(simulation.guards.guards[0].current_path.as_ref().unwrap().len(), 3);
    let report = simulation.tick(3 * PATROL_PERIOD, None, &mut rng);
    assert_eq!(report.patrol_ticks, 3);
    assert_eq!((simulation.guards.guards[0].i, simulation.guards.guards[0].j), (3, 0));
    assert_eq!(simulation.guards.guards[0].rotation, Direction::East);
    assert_eq!(simulation.guards.guards[0].current_path, None);
}

#[test]
fn bonus_is_tried_for_every_five_seconds() {
    let mut rng = StdRng::seed_from_u64(3);
    let mut simulation = Simulation::new(Grid::blank(12, 16), GameState::Game);
    for _ in 0..4 {
        let report = simulation.tick(PATROL_PERIOD, None, &mut rng);
        assert_eq!(report.bonus, BonusRoll::Skipped);
        assert_eq!(simulation.game.bonus, None);
    }
    let mut report = simulation.tick(PATROL_PERIOD, None, &mut rng);
    assert_ne!(report.bonus, BonusRoll::Skipped);
    while report.bonus == BonusRoll::Rejected {
        assert_eq!(simulation.game.bonus, None);
        report.bonus = spawn_bonus(&mut simulation.game, &simulation.state, &mut rng);
    }
    let bonus = simulation.game.bonus.unwrap();
    assert!(bonus.i < 12 && bonus.j < 16);
    assert_ne!((bonus.i, bonus.j), (6, 8));
    let report = simulation.tick(BONUS_PERIOD, None, &mut rng);
    assert_eq!(report.bonus, BonusRoll::Skipped);
    assert_eq!(simulation.game.bonus, Some(bonus));
}

#[test]
fn rejected_try_leaves_no_bonus() {
    let mut rejected = 0;
    for seed in 0..400 {
        let mut rng = StdRng::seed_from_u64(seed);
        let mut simulation = Simulation::new(Grid::blank(2, 1), GameState::Game);
        let report = simulation.tick(BONUS_PERIOD, None, &mut rng);
        match report.bonus {
            BonusRoll::Rejected => {
                rejected += 1;
                assert_eq!(simulation.game.bonus, None);
            }
            BonusRoll::Placed => assert_eq!(simulation.game.bonus, Some(Bonus { i: 0, j: 0 })),
            BonusRoll::Skipped => panic!("a bonus was due"),
        }
    }
    assert!(rejected > 100 && rejected < 300);
}

#[test]
fn collecting_the_bonus_calls_guards_at_three_points() {
    let mut rng = StdRng::seed_from_u64(9);
    let mut simulation = Simulation::new(Grid::blank(12, 16), GameState::Game);
    simulation.game.score = 2;
    assert!(simulation.game.place_bonus(7, 8));
    let report = simulation.tick(MOVE_DELAY, Some(Direction::East), &mut rng);
    assert_eq!(report.moved, Some(MoveOutcome::Collected));
    assert_eq!(simulation.game.score, 3);
    assert_eq!(report.spawned, 2);
    assert_eq!(simulation.guards.guards.len(), 2);
    let report = simulation.tick(FRAME, None, &mut rng);
    assert_eq!(report.spawned, 0);
    assert_eq!(simulation.guards.guards.len(), 2);
}

#[test]
fn guard_that_sees_the_player_ends_the_game() {
    let mut rng = StdRng::seed_from_u64(1);
    let mut simulation = Simulation::new(Grid::blank(12, 16), GameState::Game);
    simulation.guards.guards.push(facing(6, 12, Direction::North));
    let report = simulation.tick(FRAME, None, &mut rng);
    assert!(!report.caught);
    assert_eq!(simulation.state, GameState::Game);
    let report = simulation.tick(MOVE_DELAY, Some(Direction::South), &mut rng);
    assert_eq!(report.moved, Some(MoveOutcome::Moved));
    assert!(report.caught);
    assert_eq!(simulation.state, GameState::GameOver);
    let report = simulation.tick(MOVE_DELAY, Some(Direction::North), &mut rng);
    assert_eq!(report.moved, None);
    assert!(!report.caught);
    assert_eq!(simulation.state, GameState::GameOver);
    assert_eq!((simulation.game.player.i, simulation.game.player.j), (6, 9));
}

#[test]
fn guard_walks_into_sight_of_the_player() {
    let mut rng = StdRng::seed_from_u64(1);
    let mut simulation = Simulation::new(Grid::blank(12, 16), GameState::Game);
    simulation.guards.guards.push(Guard::new(0, 8, vec![(0, 8), (4, 8)]));
    let mut caught_after = None;
    for second in 1..=10 {
        if simulation.tick(PATROL_PERIOD, None, &mut rng).caught {
            caught_after = Some(second);
            break;
        }
    }
    // One tick to plan, three to walk to (3, 8), from where the guard sees
    // three cells east.
    assert_eq!(caught_after, Some(4));
    assert_eq!(simulation.state, GameState::GameOver);
    assert_eq!((simulation.guards.guards[0].i, simulation.guards.guards[0].j), (3, 8));
}

#[test]
fn simulation_is_reproducible_under_a_seed() {
    let run = |seed: u64| {
        let mut rng = StdRng::seed_from_u64(seed);
        let map = errio::levelgen::generate_level(12, 16, 14, 3, &mut rng);
        let mut simulation = Simulation::new(map, GameState::Game);
        simulation.game.score = 9;
        let inputs = [Some(Direction::East), None, Some(Direction::South), Some(Direction::West)];
        let mut reports = Vec::new();
        for frame in 0..600 {
            if simulation.game.score == i32::MAX || !simulation.valid() {
                break;
            }
            let mut report = simulation.tick(50_000_000, inputs[frame % 4], &mut rng);
            while report.bonus == BonusRoll::Rejected {
                report.bonus = spawn_bonus(&mut simulation.game, &simulation.state, &mut rng);
            }
            reports.push(report);
        }
        (simulation, reports)
    };
    let (a, ra) = run(41);
    let (b, rb) = run(41);
    assert_eq!(a, b);
    assert_eq!(ra, rb);
    assert_eq!(a.guards.guards.len() % 2, 0);
    assert!(a.guards.guards.len() >= 2);
    assert!(a.valid());
}

#[test]
fn validity_takes_every_part() {
    let mut simulation = Simulation::new(Grid::blank(3, 3), GameState::Game);
    assert!(simulation.valid());
    simulation.patrol_clock.period = 0;
    assert!(!simulation.valid());
    simulation.patrol_clock.period = 1;
    simulation.bonus_clock.accumulated = BONUS_PERIOD;
    assert!(!simulation.valid());
    simulation.bonus_clock.accumulated = 0;
    simulation.guards.guards.push(Guard::new(0, 0, vec![(1, 1)]));
    assert!(simulation.valid());
    simulation.guards.guards[0].patrol_points.clear();
    assert!(!simulation.valid());
    simulation.guards.guards.clear();
    simulation.game.player.j = 3;
    assert!(!simulation.valid());
}
