use errio::game::{
    heading, move_player, spawn_bonus, Bonus, BonusRoll, Game, MoveOutcome, MOVE_DELAY,
};
use errio::clock::Cooldown;
use errio::grid::{Direction, Grid};
use errio::GameState;
use rand::rngs::StdRng;
use rand::SeedableRng;

fn ready_game(width: usize, length: usize) -> Game {
    let mut game = Game::new(Grid::blank(width, length));
    game.player.move_cooldown.tick(MOVE_DELAY);
    game
}

#[test]
fn cooldown_runs_up_to_its_duration() {
    let mut timer = Cooldown::new(300);
    assert!(!timer.finished());
    timer.tick(100);
    assert_eq!(timer, Cooldown { elapsed: 100, duration: 300 });
    timer.tick(199);
    assert!(!timer.finished());
    timer.tick(1);
    assert!(timer.finished());
    timer.tick(5000);
    assert_eq!(timer, Cooldown { elapsed: 300, duration: 300 });
    timer.reset();
    assert_eq!(timer, Cooldown { elapsed: 0, duration: 300 });
    timer.tick(u64::MAX);
    assert_eq!(timer, Cooldown { elapsed: 300, duration: 300 });
}

#[test]
fn cooldown_of_no_duration_is_finished_at_once() {
    let timer = Cooldown::new(0);
    assert!(timer.finished());
}

#[test]
fn new_game_starts_in_the_middle() {
    let game = Game::new(Grid::blank(12, 16));
    assert_eq!((game.player.i, game.player.j), (6, 8));
    assert_eq!(game.player.facing, Direction::North);
    assert_eq!(game.player.move_cooldown, Cooldown { elapsed: 0, duration: 300_000_000 });
    assert_eq!(game.bonus, None);
    assert_eq!(game.score, 0);
    assert_eq!(game.map, Grid::blank(12, 16));
}

#[test]
fn move_waits_for_the_cooldown() {
    let mut game = Game::new(Grid::blank(12, 16));
    assert_eq!(move_player(&mut game, 100_000_000, Some(Direction::East)), MoveOutcome::Waiting);
    assert_eq!((game.player.i, game.player.j), (6, 8));
    assert_eq!(game.player.facing, Direction::North);
    assert_eq!(game.player.move_cooldown.elapsed, 100_000_000);
    assert_eq!(move_player(&mut game, 199_999_999, Some(Direction::East)), MoveOutcome::Waiting);
    assert_eq!(move_player(&mut game, 1, Some(Direction::East)), MoveOutcome::Moved);
    assert_eq!((game.player.i, game.player.j), (7, 8));
    assert_eq!(game.player.facing, Direction::East);
    assert_eq!(game.player.move_cooldown.elapsed, 0);
    assert_eq!(move_player(&mut game, 16_000_000, Some(Direction::East)), MoveOutcome::Waiting);
    assert_eq!((game.player.i, game.player.j), (7, 8));
}

#[test]
fn no_input_leaves_the_timer_finished() {
    let mut game = Game::new(Grid::blank(12, 16));
    assert_eq!(move_player(&mut game, MOVE_DELAY, None), MoveOutcome::Idle);
    assert!(game.player.move_cooldown.finished());
    assert_eq!((game.player.i, game.player.j), (6, 8));
    assert_eq!(move_player(&mut game, 0, Some(Direction::South)), MoveOutcome::Moved);
    assert_eq!((game.player.i, game.player.j), (6, 9));
}

#[test]
fn each_direction_moves_one_cell() {
    for (d, to) in [
        (Direction::North, (6, 7)),
        (Direction::East, (7, 8)),
        (Direction::South, (6, 9)),
        (Direction::West, (5, 8)),
    ] {
        let mut game = ready_game(12, 16);
        assert_eq!(move_player(&mut game, 0, Some(d)), MoveOutcome::Moved);
        assert_eq!((game.player.i, game.player.j), to);
        assert_eq!(game.player.facing, d);
    }
}

#[test]
fn blocked_move_turns_and_resets_the_timer() {
    let mut game = ready_game(12, 16);
    game.map.set_side(6, 8, Direction::West, false);
    assert_eq!(move_player(&mut game, 0, Some(Direction::West)), MoveOutcome::Blocked);
    assert_eq!((game.player.i, game.player.j), (6, 8));
    assert_eq!(game.player.facing, Direction::West);
    assert_eq!(game.player.move_cooldown.elapsed, 0);
    assert_eq!(move_player(&mut game, 1, Some(Direction::East)), MoveOutcome::Waiting);
}

#[test]
fn only_the_side_of_the_players_cell_blocks() {
    let mut game = ready_game(12, 16);
    game.map.set_side(7, 8, Direction::West, false);
    assert_eq!(move_player(&mut game, 0, Some(Direction::East)), MoveOutcome::Moved);
    game.player.move_cooldown.tick(MOVE_DELAY);
    assert_eq!(move_player(&mut game, 0, Some(Direction::West)), MoveOutcome::Blocked);
}

#[test]
fn edge_of_the_grid_blocks() {
    let mut game = ready_game(1, 1);
    for d in [Direction::North, Direction::East, Direction::South, Direction::West] {
        assert_eq!(move_player(&mut game, MOVE_DELAY, Some(d)), MoveOutcome::Blocked);
        assert_eq!((game.player.i, game.player.j), (0, 0));
        assert_eq!(game.player.facing, d);
    }
    let mut game = ready_game(3, 3);
    game.map.set_side(2, 1, Direction::East, true);
    assert_eq!(move_player(&mut game, 0, Some(Direction::East)), MoveOutcome::Moved);
    assert_eq!(move_player(&mut game, MOVE_DELAY, Some(Direction::East)), MoveOutcome::Blocked);
    assert_eq!((game.player.i, game.player.j), (2, 1));
}

#[test]
fn bonus_on_the_players_cell_is_rejected() {
    let mut game = Game::new(Grid::blank(12, 16));
    assert!(!game.place_bonus(6, 8));
    assert_eq!(game.bonus, None);
    assert!(game.place_bonus(6, 9));
    assert_eq!(game.bonus, Some(Bonus { i: 6, j: 9 }));
}

#[test]
fn pickup_scenario() {
    let mut game = Game::new(Grid::blank(12, 16));
    assert_eq!((game.player.i, game.player.j), (6, 8));
    let mut candidates = vec![(7, 8), (6, 8), (6, 8)];
    let mut rolls = 0;
    loop {
        let (i, j) = candidates.pop().unwrap();
        rolls += 1;
        if game.place_bonus(i, j) {
            break;
        }
    }
    assert_eq!(rolls, 3);
    assert_eq!(game.bonus, Some(Bonus { i: 7, j: 8 }));
    assert_eq!(game.score, 0);
    assert_eq!(move_player(&mut game, MOVE_DELAY, Some(Direction::East)), MoveOutcome::Collected);
    assert_eq!((game.player.i, game.player.j), (7, 8));
    assert_eq!(game.score, 1);
    assert_eq!(game.bonus, None);
}

#[test]
fn moving_elsewhere_leaves_the_bonus() {
    let mut game = ready_game(12, 16);
    assert!(game.place_bonus(7, 8));
    assert_eq!(move_player(&mut game, 0, Some(Direction::North)), MoveOutcome::Moved);
    assert_eq!(game.bonus, Some(Bonus { i: 7, j: 8 }));
    assert_eq!(game.score, 0);
}

#[test]
fn blocked_move_towards_the_bonus_collects_nothing() {
    let mut game = ready_game(12, 16);
    assert!(game.place_bonus(7, 8));
    game.map.close_wall(6, 8, Direction::East);
    assert_eq!(move_player(&mut game, 0, Some(Direction::East)), MoveOutcome::Blocked);
    assert_eq!(game.bonus, Some(Bonus { i: 7, j: 8 }));
    assert_eq!(game.score, 0);
}

#[test]
fn spawn_bonus_is_skipped_outside_the_game_or_with_a_bonus_waiting() {
    let mut rng = StdRng::seed_from_u64(4);
    let mut game = Game::new(Grid::blank(12, 16));
    for state in [GameState::Menu, GameState::Splash, GameState::GameOver] {
        assert_eq!(spawn_bonus(&mut game, &state, &mut rng), BonusRoll::Skipped);
        assert_eq!(game.bonus, None);
    }
    assert!(game.place_bonus(0, 0));
    assert_eq!(spawn_bonus(&mut game, &GameState::Game, &mut rng), BonusRoll::Skipped);
    assert_eq!(game.bonus, Some(Bonus { i: 0, j: 0 }));
}

#[test]
fn spawn_bonus_never_lands_on_the_player() {
    for seed in 0..200 {
        let mut rng = StdRng::seed_from_u64(seed);
        let mut game = Game::new(Grid::blank(2, 2));
        let mut rolls = 0;
        loop {
            rolls += 1;
            match spawn_bonus(&mut game, &GameState::Game, &mut rng) {
                BonusRoll::Placed => break,
                BonusRoll::Rejected => assert_eq!(game.bonus, None),
                BonusRoll::Skipped => panic!("a bonus was due"),
            }
            assert!(rolls < 1000);
        }
        let bonus = game.bonus.unwrap();
        assert!(bonus.i < 2 && bonus.j < 2);
        assert_ne!((bonus.i, bonus.j), (game.player.i, game.player.j));
    }
}

#[test]
fn spawn_bonus_draws_the_column_first() {
    let mut game = Game::new(Grid::blank(5, 1));
    let mut seen_columns = [false; 5];
    for seed in 0..200 {
        let mut rng = StdRng::seed_from_u64(seed);
        game.bonus = None;
        if spawn_bonus(&mut game, &GameState::Game, &mut rng) == BonusRoll::Placed {
            let bonus = game.bonus.unwrap();
            assert_eq!(bonus.j, 0);
            seen_columns[bonus.i] = true;
        }
    }
    assert_eq!(seen_columns, [true, true, false, true, true]);
}

#[test]
fn spawn_bonus_is_reproducible_under_a_seed() {
    let mut a = Game::new(Grid::blank(12, 16));
    let mut b = Game::new(Grid::blank(12, 16));
    let ra = spawn_bonus(&mut a, &GameState::Game, &mut StdRng::seed_from_u64(31));
    let rb = spawn_bonus(&mut b, &GameState::Game, &mut StdRng::seed_from_u64(31));
    assert_eq!(ra, rb);
    assert_eq!(a, b);
}

#[test]
fn heading_maps_keys_to_directions() {
    assert_eq!(heading(false, false, false, false), None);
    assert_eq!(heading(true, false, false, false), Some(Direction::East));
    assert_eq!(heading(false, true, false, false), Some(Direction::West));
    assert_eq!(heading(false, false, true, false), Some(Direction::South));
    assert_eq!(heading(false, false, false, true), Some(Direction::North));
    assert_eq!(heading(true, true, false, false), Some(Direction::West));
    assert_eq!(heading(true, true, true, false), Some(Direction::South));
    assert_eq!(heading(true, true, true, true), Some(Direction::North));
    assert_eq!(heading(true, false, false, true), Some(Direction::North));
}

#[test]
fn valid_tells_a_game_in_shape_from_one_out_of_shape() {
    let mut game = Game::new(Grid::blank(4, 4));
    assert!(game.valid());
    game.player.i = 4;
    assert!(!game.valid());
    game.player.i = 3;
    game.bonus = Some(Bonus { i: 0, j: 4 });
    assert!(!game.valid());
    game.bonus = Some(Bonus { i: 0, j: 3 });
    assert!(game.valid());
    game.map.cells[0].i = 1;
    assert!(!game.valid());
}
