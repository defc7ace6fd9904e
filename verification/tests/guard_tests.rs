use errio::game::Game;
use errio::grid::{Cell, Direction, Grid};
use errio::guard::{
    lookout, patrol, spawn_due, spawn_guard, Guard, GuardRoster, GUARD_BATCH, VISION,
};
use errio::GameState;
use rand::rngs::StdRng;
use rand::SeedableRng;

fn cells(grid: &Grid, at: &[(usize, usize)]) -> Vec<Cell> {
    at.iter().map(|&(i, j)| grid.cell(i, j).unwrap()).collect()
}

fn facing(i: usize, j: usize, rotation: Direction) -> Guard {
    let mut guard = Guard::new(i, j, vec![(0, 0)]);
    guard.rotation = rotation;
    guard
}

#[test]
fn new_guard_has_not_set_out() {
    let guard = Guard::new(3, 4, vec![(1, 1), (5, 5)]);
    assert_eq!((guard.i, guard.j), (3, 4));
    assert_eq!(guard.rotation, Direction::North);
    assert_eq!(guard.current_path, None);
    assert_eq!(guard.pp, 0);
    assert_eq!(guard.patrol_points, vec![(1, 1), (5, 5)]);
}

#[test]
fn idle_guard_plans_a_way_to_the_next_waypoint() {
    let grid = Grid::blank(12, 16);
    let mut guard = Guard::new(1, 1, vec![(9, 9), (4, 1), (1, 5)]);
    guard.patrol(&grid);
    assert_eq!(guard.pp, 1);
    assert_eq!((guard.i, guard.j), (1, 1));
    assert_eq!(guard.rotation, Direction::North);
    assert_eq!(guard.current_path, Some(cells(&grid, &[(4, 1), (3, 1), (2, 1)])));
}

#[test]
fn guard_follows_its_way_one_cell_a_tick() {
    let grid = Grid::blank(12, 16);
    let mut guard = Guard::new(1, 1, vec![(9, 9), (4, 1)]);
    guard.patrol(&grid);
    guard.patrol(&grid);
    assert_eq!((guard.i, guard.j, guard.rotation), (2, 1, Direction::East));
    assert_eq!(guard.current_path, Some(cells(&grid, &[(4, 1), (3, 1)])));
    guard.patrol(&grid);
    assert_eq!((guard.i, guard.j, guard.rotation), (3, 1, Direction::East));
    guard.patrol(&grid);
    assert_eq!((guard.i, guard.j, guard.rotation), (4, 1, Direction::East));
    assert_eq!(guard.current_path, None);
    assert_eq!(guard.pp, 1);
}

#[test]
fn patrol_index_wraps_round() {
    let grid = Grid::blank(12, 16);
    let mut guard = Guard::new(4, 1, vec![(4, 3), (4, 1)]);
    guard.pp = 1;
    guard.patrol(&grid);
    assert_eq!(guard.pp, 0);
    assert_eq!(guard.current_path, Some(cells(&grid, &[(4, 3), (4, 2)])));
    guard.patrol(&grid);
    assert_eq!((guard.i, guard.j, guard.rotation), (4, 2, Direction::South));
    guard.patrol(&grid);
    assert_eq!((guard.i, guard.j), (4, 3));
    guard.patrol(&grid);
    assert_eq!(guard.pp, 1);
    guard.patrol(&grid);
    assert_eq!((guard.i, guard.j, guard.rotation), (4, 2, Direction::North));
}

#[test]
fn patrol_index_beyond_the_list_starts_over() {
    let grid = Grid::blank(12, 16);
    let mut guard = Guard::new(4, 1, vec![(4, 3), (6, 1)]);
    guard.pp = 7;
    guard.patrol(&grid);
    assert_eq!(guard.pp, 0);
    assert_eq!(guard.current_path.unwrap()[0], grid.cell(4, 3).unwrap());
}

#[test]
fn single_waypoint_is_targeted_again_and_again() {
    let grid = Grid::blank(12, 16);
    let mut guard = Guard::new(4, 1, vec![(4, 2)]);
    guard.patrol(&grid);
    assert_eq!(guard.pp, 0);
    guard.patrol(&grid);
    assert_eq!((guard.i, guard.j), (4, 2));
    assert_eq!(guard.current_path, None);
    guard.patrol(&grid);
    assert_eq!(guard.current_path, None);
    assert_eq!((guard.i, guard.j), (4, 2));
}

#[test]
fn turning_prefers_a_change_of_column() {
    let grid = Grid::blank(12, 16);
    let cases = [
        ((3, 3), Direction::West),
        ((7, 3), Direction::East),
        ((3, 7), Direction::West),
        ((7, 7), Direction::East),
        ((5, 3), Direction::North),
        ((5, 7), Direction::South),
        ((5, 5), Direction::South),
    ];
    for (to, expected) in cases {
        let mut guard = Guard::new(5, 5, vec![(0, 0)]);
        guard.rotation = Direction::South;
        guard.current_path = Some(cells(&grid, &[(0, 0), to]));
        guard.patrol(&grid);
        assert_eq!((guard.i, guard.j), to);
        assert_eq!(guard.rotation, expected);
        assert_eq!(guard.current_path, Some(cells(&grid, &[(0, 0)])));
    }
}

#[test]
fn patrol_retry_scenario() {
    let mut grid = Grid::blank(12, 16);
    for d in [Direction::North, Direction::East, Direction::South, Direction::West] {
        grid.close_wall(9, 9, d);
    }
    let mut guard = Guard::new(1, 1, vec![(2, 2), (9, 9), (4, 4)]);
    let before = Guard::new(1, 1, vec![(2, 2), (9, 9), (4, 4)]);
    for _ in 0..5 {
        guard.patrol(&grid);
        assert_eq!(guard.current_path, None);
        assert_eq!(guard, before);
    }
    grid.set_side(9, 9, Direction::North, true);
    grid.set_side(9, 8, Direction::South, true);
    guard.patrol(&grid);
    assert_eq!(guard.pp, 1);
    let path = guard.current_path.unwrap();
    assert_eq!(path.len(), 16);
    assert_eq!((path[0].i, path[0].j), (9, 9));
    assert_eq!((path[1].i, path[1].j), (9, 8));
}

#[test]
fn guard_on_its_next_waypoint_goes_on_to_the_one_after() {
    let grid = Grid::blank(12, 16);
    let mut guard = Guard::new(3, 3, vec![(5, 3), (3, 3)]);
    guard.rotation = Direction::West;
    guard.patrol(&grid);
    assert_eq!(guard.current_path, None);
    assert_eq!(guard.pp, 1);
    assert_eq!((guard.i, guard.j, guard.rotation), (3, 3, Direction::West));
    guard.patrol(&grid);
    assert_eq!(guard.pp, 0);
    assert_eq!(guard.current_path, Some(cells(&grid, &[(5, 3), (4, 3)])));
}

#[test]
fn walled_in_guard_still_reaches_the_waypoint_it_stands_on() {
    let mut grid = Grid::blank(12, 16);
    for d in [Direction::North, Direction::East, Direction::South, Direction::West] {
        grid.close_wall(3, 3, d);
    }
    let mut guard = Guard::new(3, 3, vec![(5, 3), (3, 3)]);
    guard.patrol(&grid);
    assert_eq!((guard.pp, guard.current_path.is_none()), (1, true));
    for _ in 0..3 {
        guard.patrol(&grid);
        assert_eq!((guard.pp, guard.current_path.is_none()), (1, true));
    }
}

#[test]
fn waypoint_outside_the_grid_is_never_reached() {
    let grid = Grid::blank(4, 4);
    let mut guard = Guard::new(1, 1, vec![(0, 0), (8, 8)]);
    guard.patrol(&grid);
    assert_eq!(guard.current_path, None);
    assert_eq!(guard.pp, 0);
}

#[test]
fn roster_patrols_only_while_the_game_runs() {
    let game = Game::new(Grid::blank(12, 16));
    let mut roster = GuardRoster::new();
    roster.guards.push(Guard::new(1, 1, vec![(0, 0), (1, 3)]));
    roster.guards.push(Guard::new(5, 5, vec![(0, 0), (6, 5)]));
    for state in [GameState::Menu, GameState::Splash, GameState::GameOver] {
        patrol(&game, &mut roster, &state);
        assert_eq!(roster.guards[0], Guard::new(1, 1, vec![(0, 0), (1, 3)]));
        assert_eq!(roster.guards[1], Guard::new(5, 5, vec![(0, 0), (6, 5)]));
    }
    patrol(&game, &mut roster, &GameState::Game);
    assert_eq!(roster.guards[0].pp, 1);
    assert_eq!(roster.guards[1].pp, 1);
    assert_eq!(roster.guards[0].current_path.as_ref().unwrap().len(), 2);
    assert_eq!(roster.guards[1].current_path.as_ref().unwrap().len(), 1);
    patrol(&game, &mut roster, &GameState::Game);
    assert_eq!((roster.guards[0].i, roster.guards[0].j), (1, 2));
    assert_eq!((roster.guards[1].i, roster.guards[1].j), (6, 5));
    assert_eq!(roster.guards[1].current_path, None);
}

#[test]
fn guard_sees_along_its_facing_up_to_its_range() {
    let grid = Grid::blank(12, 16);
    assert_eq!(VISION, 3);
    let guard = facing(5, 5, Direction::East);
    assert!(guard.can_see(&grid, 5, 5));
    assert!(guard.can_see(&grid, 6, 5));
    assert!(guard.can_see(&grid, 7, 5));
    assert!(guard.can_see(&grid, 8, 5));
    assert!(!guard.can_see(&grid, 9, 5));
    assert!(!guard.can_see(&grid, 4, 5));
    assert!(!guard.can_see(&grid, 6, 6));
    assert!(!guard.can_see(&grid, 5, 6));
    let guard = facing(5, 5, Direction::North);
    assert!(guard.can_see(&grid, 5, 2));
    assert!(!guard.can_see(&grid, 5, 1));
    assert!(!guard.can_see(&grid, 5, 6));
    let guard = facing(5, 5, Direction::South);
    assert!(guard.can_see(&grid, 5, 8));
    assert!(!guard.can_see(&grid, 5, 9));
    let guard = facing(5, 5, Direction::West);
    assert!(guard.can_see(&grid, 2, 5));
    assert!(!guard.can_see(&grid, 1, 5));
}

#[test]
fn sight_ends_at_the_edge_of_the_grid() {
    let grid = Grid::blank(4, 4);
    let guard = facing(1, 1, Direction::North);
    assert!(guard.can_see(&grid, 1, 0));
    assert!(guard.can_see(&grid, 1, 1));
    let guard = facing(3, 3, Direction::East);
    assert!(guard.can_see(&grid, 3, 3));
    assert!(!guard.can_see(&grid, 0, 3));
    let guard = facing(0, 0, Direction::West);
    assert!(guard.can_see(&grid, 0, 0));
    assert!(!guard.can_see(&grid, usize::MAX, 0));
}

#[test]
fn wall_ends_the_sight() {
    let mut grid = Grid::blank(12, 16);
    grid.close_wall(6, 5, Direction::East);
    let guard = facing(5, 5, Direction::East);
    assert!(guard.can_see(&grid, 5, 5));
    assert!(guard.can_see(&grid, 6, 5));
    assert!(!guard.can_see(&grid, 7, 5));
    assert!(!guard.can_see(&grid, 8, 5));
    let mut grid = Grid::blank(12, 16);
    grid.close_wall(5, 5, Direction::East);
    assert!(guard.can_see(&grid, 5, 5));
    assert!(!guard.can_see(&grid, 6, 5));
    assert!(!guard.can_see(&grid, 7, 5));
    assert!(!guard.can_see(&grid, 8, 5));
}

#[test]
fn only_the_near_side_of_a_wall_ends_the_sight() {
    let mut grid = Grid::blank(12, 16);
    grid.set_side(6, 5, Direction::West, false);
    let guard = facing(5, 5, Direction::East);
    assert!(guard.can_see(&grid, 6, 5));
    assert!(guard.can_see(&grid, 7, 5));
    grid.set_side(5, 5, Direction::East, false);
    assert!(!guard.can_see(&grid, 6, 5));
}

#[test]
fn lookout_ends_the_game_when_a_guard_sees_the_player() {
    let game = Game::new(Grid::blank(12, 16));
    let mut roster = GuardRoster::new();
    roster.guards.push(facing(0, 0, Direction::East));
    roster.guards.push(facing(6, 11, Direction::South));
    let mut state = GameState::Game;
    lookout(&game, &roster, &mut state);
    assert_eq!(state, GameState::Game);
    roster.guards.push(facing(6, 11, Direction::North));
    lookout(&game, &roster, &mut state);
    assert_eq!(state, GameState::GameOver);
}

#[test]
fn lookout_without_guards_changes_nothing() {
    let game = Game::new(Grid::blank(12, 16));
    let roster = GuardRoster::new();
    for was in [GameState::Game, GameState::Menu, GameState::Splash, GameState::GameOver] {
        let mut state = was;
        lookout(&game, &roster, &mut state);
        assert_eq!(state, was);
    }
}

#[test]
fn lookout_overrides_any_state() {
    let game = Game::new(Grid::blank(12, 16));
    let mut roster = GuardRoster::new();
    roster.guards.push(facing(6, 8, Direction::West));
    let mut state = GameState::Menu;
    lookout(&game, &roster, &mut state);
    assert_eq!(state, GameState::GameOver);
}

#[test]
fn guard_scaling_scenario() {
    assert!(!spawn_due(0, 0));
    assert!(spawn_due(0, 3));
    assert!(!spawn_due(0, 2));
    let mut rng = StdRng::seed_from_u64(12);
    let mut game = Game::new(Grid::blank(12, 16));
    let mut roster = GuardRoster::new();
    assert_eq!(spawn_guard(&game, &mut roster, &mut rng), 0);
    assert_eq!(roster.guards.len(), 0);
    game.score = 2;
    assert_eq!(spawn_guard(&game, &mut roster, &mut rng), 0);
    assert_eq!(roster.guards.len(), 0);
    game.score = 3;
    assert_eq!(spawn_guard(&game, &mut roster, &mut rng), GUARD_BATCH);
    assert_eq!(roster.guards.len(), 2);
    assert_eq!(spawn_guard(&game, &mut roster, &mut rng), 0);
    assert_eq!(roster.guards.len(), 2);
}

#[test]
fn spawn_due_counts_one_guard_for_three_points() {
    assert!(!spawn_due(0, -1));
    assert!(!spawn_due(0, i32::MIN));
    assert!(spawn_due(0, 4));
    assert!(!spawn_due(1, 5));
    assert!(spawn_due(1, 6));
    assert!(!spawn_due(2, 8));
    assert!(spawn_due(2, 9));
    assert!(spawn_due(2, i32::MAX));
    assert!(!spawn_due(usize::MAX, i32::MAX));
    assert!(!spawn_due(715827882, i32::MAX));
    assert!(spawn_due(715827881, i32::MAX));
}

#[test]
fn new_guards_stand_on_the_level_with_two_to_four_waypoints() {
    let mut counts = [false; 5];
    for seed in 0..60 {
        let mut rng = StdRng::seed_from_u64(seed);
        let mut game = Game::new(Grid::blank(12, 16));
        game.score = 3;
        let mut roster = GuardRoster::new();
        roster.guards.push(Guard::new(11, 15, vec![(3, 3)]));
        game.score = 6;
        assert_eq!(spawn_guard(&game, &mut roster, &mut rng), 2);
        assert_eq!(roster.guards.len(), 3);
        assert_eq!(roster.guards[0], Guard::new(11, 15, vec![(3, 3)]));
        for guard in &roster.guards[1..] {
            assert!(guard.i < 12 && guard.j < 16);
            assert_eq!(guard.rotation, Direction::North);
            assert_eq!(guard.current_path, None);
            assert_eq!(guard.pp, 0);
            assert!((2..=4).contains(&guard.patrol_points.len()));
            counts[guard.patrol_points.len()] = true;
            for &(i, j) in &guard.patrol_points {
                assert!(i < 12 && j < 16);
            }
        }
    }
    assert_eq!(counts, [false, false, true, true, true]);
}

#[test]
fn spawn_guard_is_reproducible_under_a_seed() {
    let mut game = Game::new(Grid::blank(12, 16));
    game.score = 3;
    let mut a = GuardRoster::new();
    let mut b = GuardRoster::new();
    spawn_guard(&game, &mut a, &mut StdRng::seed_from_u64(5));
    spawn_guard(&game, &mut b, &mut StdRng::seed_from_u64(5));
    assert_eq!(a, b);
    assert_eq!(a.guards.len(), 2);
}

#[test]
fn valid_tells_a_guard_that_can_patrol() {
    let grid = Grid::blank(4, 4);
    let mut guard = Guard::new(1, 1, vec![(0, 0)]);
    assert!(guard.valid());
    guard.current_path = Some(Vec::new());
    assert!(!guard.valid());
    guard.current_path = Some(cells(&grid, &[(1, 2)]));
    assert!(guard.valid());
    guard.patrol_points.clear();
    assert!(!guard.valid());
    let mut roster = GuardRoster::new();
    assert!(roster.valid());
    roster.guards.push(Guard::new(1, 1, vec![(0, 0)]));
    assert!(roster.valid());
    roster.guards.push(guard);
    assert!(!roster.valid());
}
