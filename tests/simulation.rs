use game_of_life::board::{Position, BOARD_CELLS, BOARD_HEIGHT, BOARD_WIDTH};
use game_of_life::rules::next_cell_state;
use game_of_life::simulation::{
    CellLog, SimError, Simulation, SimulationState, DEFAULT_SIMULATION_SPEED_HZ,
    RANDOMIZE_THRESHOLD,
};
use std::collections::HashSet;

/// The handles drawn and not yet released; fails if a handle is released
/// that is not drawn.
fn drawn(r: &CellLog) -> HashSet<u64> {
    let mut out = HashSet::new();
    for &(_, h) in r.created_cells() {
        assert!(out.insert(h), "handle {} drawn twice", h);
    }
    for h in r.destroyed_handles() {
        assert!(out.remove(h), "handle {} released but not drawn", h);
    }
    out
}

fn pos(x: usize, y: usize) -> Position {
    Position { x, y }
}

fn board_with(cells: &[(usize, usize)], r: &mut CellLog) -> Simulation {
    let mut sim = Simulation::new();
    for &(x, y) in cells {
        sim.spawn(pos(x, y), r).unwrap();
    }
    sim
}

/// The live cells, found by asking every cell of the board.
fn live_cells(sim: &Simulation) -> HashSet<(usize, usize)> {
    let mut out = HashSet::new();
    for x in 0..BOARD_WIDTH {
        for y in 0..BOARD_HEIGHT {
            if sim.state_at_position(&pos(x, y)) {
                out.insert((x, y));
            }
        }
    }
    out
}

fn set_of(cells: &[(usize, usize)]) -> HashSet<(usize, usize)> {
    cells.iter().copied().collect()
}

#[test]
fn wrap_folds_into_board() {
    assert_eq!(Position::wrap(-1, 0), pos(999, 0));
    assert_eq!(Position::wrap(1000, 0), pos(0, 0));
    assert_eq!(Position::wrap(0, -1), pos(0, 499));
    assert_eq!(Position::wrap(0, 500), pos(0, 0));
    assert_eq!(Position::wrap(-1001, -501), pos(999, 499));
    assert_eq!(Position::wrap(2500, 1250), pos(500, 250));
    assert_eq!(Position::wrap(17, 42), pos(17, 42));
}

#[test]
fn wrap_stays_in_range_at_extremes() {
    for &(x, y) in &[(i32::MIN, i32::MIN), (i32::MAX, i32::MAX), (i32::MIN, i32::MAX), (-1000, -500)] {
        let p = Position::wrap(x, y);
        assert!(p.x < BOARD_WIDTH && p.y < BOARD_HEIGHT);
        assert_eq!(p.x as i64, (x as i64).rem_euclid(BOARD_WIDTH as i64));
        assert_eq!(p.y as i64, (y as i64).rem_euclid(BOARD_HEIGHT as i64));
    }
}

#[test]
fn neighbours_of_a_corner_wrap_around() {
    let n = pos(0, 0).neighbours();
    assert_eq!(
        n,
        vec![
            pos(999, 499),
            pos(0, 499),
            pos(1, 499),
            pos(999, 0),
            pos(1, 0),
            pos(999, 1),
            pos(0, 1),
            pos(1, 1),
        ]
    );
}

#[test]
fn neighbours_are_mutual() {
    for &(x, y) in &[(0, 0), (999, 499), (500, 0), (0, 250), (37, 411)] {
        let p = pos(x, y);
        let ns = p.neighbours();
        assert_eq!(ns.len(), 8);
        for q in ns {
            assert!(q.neighbours().contains(&p), "{:?} is not around {:?}", p, q);
        }
    }
}

#[test]
fn cell_fate_follows_the_rule() {
    for n in 0..=8usize {
        assert_eq!(next_cell_state(true, n), n == 2 || n == 3);
        assert_eq!(next_cell_state(false, n), n == 3);
    }
}

#[test]
fn new_simulation_is_empty_and_paused() {
    let sim = Simulation::new();
    assert_eq!(sim.population(), 0);
    assert_eq!(sim.generation(), 0);
    assert_eq!(sim.speed(), DEFAULT_SIMULATION_SPEED_HZ);
    assert_eq!(sim.state(), SimulationState::Paused);
    let d = Simulation::default();
    assert_eq!(d.population(), 0);
    assert_eq!(d.speed(), 10);
}

#[test]
fn spawn_and_despawn_hand_the_handle_back() {
    let mut r = CellLog::new(101);
    let mut sim = Simulation::new();
    let h = sim.spawn(pos(3, 4), &mut r).unwrap();
    assert!(sim.state_at_position(&pos(3, 4)));
    assert_eq!(sim.population(), 1);
    assert_eq!(sim.spawn(pos(3, 4), &mut r), Err(SimError::CellAlreadyAlive));
    assert_eq!(sim.population(), 1);
    assert_eq!(sim.despawn(pos(3, 4), &mut r), Ok(h));
    assert_eq!(*r.destroyed_handles(), vec![h]);
    assert!(!sim.state_at_position(&pos(3, 4)));
    assert_eq!(sim.population(), 0);
    assert_eq!(sim.despawn(pos(3, 4), &mut r), Err(SimError::CellNotAlive));
    assert_eq!(sim.population(), 0);
}

#[test]
fn population_matches_live_cells_after_any_sequence() {
    let mut r = CellLog::new(101);
    let mut sim = Simulation::new();
    sim.spawn(pos(1, 1), &mut r).unwrap();
    sim.spawn(pos(2, 1), &mut r).unwrap();
    sim.toggle(pos(3, 1), &mut r);
    assert_eq!(sim.population(), live_cells(&sim).len());
    sim.toggle(pos(2, 1), &mut r);
    let _ = sim.despawn(pos(2, 1), &mut r);
    let _ = sim.spawn(pos(1, 1), &mut r);
    assert_eq!(sim.population(), 2);
    assert_eq!(sim.population(), live_cells(&sim).len());
    sim.tick(&mut r);
    assert_eq!(sim.population(), live_cells(&sim).len());
    sim.reset(&mut r);
    assert_eq!(sim.population(), live_cells(&sim).len());
    sim.randomize(&mut r);
    assert_eq!(sim.population(), live_cells(&sim).len());
    assert_eq!(sim.population(), drawn(&r).len());
}

#[test]
fn toggle_twice_restores_the_board() {
    let mut r = CellLog::new(101);
    let mut sim = board_with(&[(10, 10), (11, 10)], &mut r);
    let before = live_cells(&sim);
    assert!(sim.toggle(pos(50, 50), &mut r));
    assert_eq!(sim.population(), 3);
    assert!(!sim.toggle(pos(50, 50), &mut r));
    assert_eq!(sim.population(), 2);
    assert_eq!(live_cells(&sim), before);
}

#[test]
fn reset_clears_cells_and_generation() {
    let mut r = CellLog::new(101);
    let mut sim = board_with(&[(1, 2), (3, 4), (5, 6)], &mut r);
    sim.set_state(SimulationState::Running);
    sim.set_speed(42).unwrap();
    sim.tick(&mut r);
    sim.tick(&mut r);
    sim.reset(&mut r);
    assert_eq!(sim.population(), 0);
    assert_eq!(sim.generation(), 0);
    assert!(live_cells(&sim).is_empty());
    assert!(drawn(&r).is_empty());
    assert_eq!(sim.state(), SimulationState::Running);
    assert_eq!(sim.speed(), 42);
}

#[test]
fn lonely_and_crowded_cells_die() {
    let mut r = CellLog::new(101);
    // a single cell, and a pair, die of isolation
    let mut sim = board_with(&[(10, 10), (20, 20), (21, 20)], &mut r);
    sim.tick(&mut r);
    assert_eq!(sim.population(), 0);
    assert_eq!(drawn(&r).len(), 0);

    // the centre of a plus has four neighbours and dies
    let mut sim = board_with(&[(50, 50), (49, 50), (51, 50), (50, 49), (50, 51)], &mut r);
    sim.tick(&mut r);
    assert!(!sim.state_at_position(&pos(50, 50)));
}

#[test]
fn cells_with_two_or_three_neighbours_live_on() {
    let mut r = CellLog::new(101);
    // an L of three: every cell has two neighbours, the corner has none dying
    let mut sim = board_with(&[(10, 10), (11, 10), (10, 11)], &mut r);
    assert_eq!(sim.alive_neighbours_at_position(pos(10, 10)), 2);
    sim.tick(&mut r);
    assert!(sim.state_at_position(&pos(10, 10)));
    assert!(sim.state_at_position(&pos(11, 10)));
    assert!(sim.state_at_position(&pos(10, 11)));
    // and the empty corner with three neighbours is born
    assert!(sim.state_at_position(&pos(11, 11)));
    assert_eq!(sim.population(), 4);
}

#[test]
fn birth_needs_exactly_three() {
    let mut r = CellLog::new(101);
    let mut sim = board_with(&[(30, 30), (32, 30)], &mut r);
    assert_eq!(sim.alive_neighbours_at_position(pos(31, 30)), 2);
    sim.tick(&mut r);
    assert!(!sim.state_at_position(&pos(31, 30)));

    let mut sim = board_with(&[(30, 30), (32, 30), (31, 32)], &mut r);
    assert_eq!(sim.alive_neighbours_at_position(pos(31, 31)), 3);
    sim.tick(&mut r);
    assert!(sim.state_at_position(&pos(31, 31)));
}

#[test]
fn counts_reach_across_the_edges() {
    let mut r = CellLog::new(101);
    let sim = board_with(&[(999, 499), (0, 499), (999, 0)], &mut r);
    assert_eq!(sim.alive_neighbours_at_position(pos(0, 0)), 3);
    assert_eq!(sim.alive_neighbours_at_position(pos(500, 250)), 0);
}

#[test]
fn birth_across_the_corner_of_the_torus() {
    let mut r = CellLog::new(101);
    let mut sim = board_with(&[(999, 499), (0, 499), (999, 0)], &mut r);
    sim.tick(&mut r);
    assert_eq!(live_cells(&sim), set_of(&[(999, 499), (0, 499), (999, 0), (0, 0)]));
}

#[test]
fn block_is_stable() {
    let mut r = CellLog::new(101);
    let block = [(100, 100), (101, 100), (100, 101), (101, 101)];
    let mut sim = board_with(&block, &mut r);
    let handles_before: HashSet<u64> = drawn(&r);
    for g in 1..=10u64 {
        sim.tick(&mut r);
        assert_eq!(live_cells(&sim), set_of(&block));
        assert_eq!(sim.generation(), g);
        assert_eq!(sim.population(), 4);
    }
    assert_eq!(drawn(&r), handles_before);
    assert!(r.destroyed_handles().is_empty());
}

#[test]
fn blinker_oscillates_in_place() {
    let mut r = CellLog::new(101);
    let row = [(200, 200), (201, 200), (202, 200)];
    let column = [(201, 199), (201, 200), (201, 201)];
    let mut sim = board_with(&row, &mut r);
    sim.tick(&mut r);
    assert_eq!(live_cells(&sim), set_of(&column));
    sim.tick(&mut r);
    assert_eq!(live_cells(&sim), set_of(&row));
    assert_eq!(sim.generation(), 2);
}

#[test]
fn tick_depends_only_on_the_live_set() {
    let cells = [(5, 5), (6, 5), (7, 5), (7, 4), (6, 3), (998, 10), (999, 10), (0, 10)];
    let mut r1 = CellLog::new(101);
    let mut r2 = CellLog::new(101);
    let mut a = board_with(&cells, &mut r1);
    let mut reversed: Vec<(usize, usize)> = cells.to_vec();
    reversed.reverse();
    let mut b = board_with(&reversed, &mut r2);
    for _ in 0..4 {
        a.tick(&mut r1);
        b.tick(&mut r2);
        assert_eq!(live_cells(&a), live_cells(&b));
        assert_eq!(a.generation(), b.generation());
    }
    assert_eq!(a.generation(), 4);
}

#[test]
fn tick_on_empty_board_counts_a_generation() {
    let mut r = CellLog::new(101);
    let mut sim = Simulation::new();
    sim.tick(&mut r);
    assert_eq!(sim.generation(), 1);
    assert_eq!(sim.population(), 0);
}

#[test]
fn speed_must_be_positive() {
    let mut sim = Simulation::new();
    assert_eq!(sim.set_speed(0), Err(SimError::InvalidSpeed));
    assert_eq!(sim.speed(), DEFAULT_SIMULATION_SPEED_HZ);
    assert_eq!(sim.set_speed(200), Ok(()));
    assert_eq!(sim.speed(), 200);
    assert_eq!(sim.set_speed(1), Ok(()));
    assert_eq!(sim.speed(), 1);
}

#[test]
fn run_mode_toggles() {
    let mut r = CellLog::new(101);
    let mut sim = board_with(&[(1, 1)], &mut r);
    sim.toggle_state();
    assert_eq!(sim.state(), SimulationState::Running);
    sim.toggle_state();
    assert_eq!(sim.state(), SimulationState::Paused);
    sim.set_state(SimulationState::Running);
    assert_eq!(sim.state(), SimulationState::Running);
    assert_eq!(sim.population(), 1);
}

#[test]
fn randomize_with_seeds_cells_above_threshold() {
    let mut r = CellLog::new(101);
    let mut sim = board_with(&[(7, 7)], &mut r);
    sim.tick(&mut r);
    let mut draws = vec![0u32; BOARD_CELLS as usize];
    draws[0] = RANDOMIZE_THRESHOLD + 1;
    draws[3 * BOARD_HEIGHT + 2] = u32::MAX;
    draws[999 * BOARD_HEIGHT + 499] = RANDOMIZE_THRESHOLD + 7;
    draws[10] = RANDOMIZE_THRESHOLD;
    sim.randomize_with(&draws, &mut r);
    assert_eq!(live_cells(&sim), set_of(&[(0, 0), (3, 2), (999, 499)]));
    assert_eq!(sim.population(), 3);
    assert_eq!(sim.generation(), 0);
    assert_eq!(drawn(&r).len(), 3);
}

#[test]
fn randomize_seeds_about_a_fifth() {
    let mut r = CellLog::new(101);
    let mut sim = Simulation::new();
    sim.randomize(&mut r);
    let n = sim.population();
    assert!(n > BOARD_CELLS as usize / 6 && n < BOARD_CELLS as usize / 4, "population {}", n);
    assert_eq!(sim.generation(), 0);
}

#[test]
fn failed_spawn_and_despawn_make_no_renderer_call() {
    let mut r = CellLog::new(101);
    let mut sim = board_with(&[(4, 4)], &mut r);
    assert_eq!(r.created_cells().len(), 1);
    assert_eq!(sim.spawn(pos(4, 4), &mut r), Err(SimError::CellAlreadyAlive));
    assert_eq!(sim.despawn(pos(5, 5), &mut r), Err(SimError::CellNotAlive));
    assert_eq!(*r.created_cells(), vec![(pos(4, 4), 101)]);
    assert!(r.destroyed_handles().is_empty());
}

#[test]
fn spawn_stores_the_handle_the_renderer_made() {
    let mut r = CellLog::new(7);
    let mut sim = Simulation::new();
    assert_eq!(sim.spawn(pos(9, 8), &mut r), Ok(7));
    assert_eq!(sim.spawn(pos(1, 2), &mut r), Ok(8));
    assert_eq!(*r.created_cells(), vec![(pos(9, 8), 7), (pos(1, 2), 8)]);
    assert_eq!(sim.despawn(pos(9, 8), &mut r), Ok(7));
    assert_eq!(*r.destroyed_handles(), vec![7]);
}

#[test]
fn tick_releases_the_dying_and_draws_the_newborn() {
    let mut r = CellLog::new(101);
    // a blinker: the two ends die, the centre survives, two cells are born
    let mut sim = board_with(&[(200, 200), (201, 200), (202, 200)], &mut r);
    let centre = 102;
    let (_, _) = r.take_log();
    sim.tick(&mut r);
    let mut released = r.destroyed_handles().clone();
    released.sort();
    assert_eq!(released, vec![101, 103]);
    let mut born: Vec<Position> = r.created_cells().iter().map(|&(p, _)| p).collect();
    born.sort_by_key(|p| (p.x, p.y));
    assert_eq!(born, vec![pos(201, 199), pos(201, 201)]);
    for &(p, h) in r.created_cells().clone().iter() {
        assert_eq!(sim.despawn(p, &mut r), Ok(h));
    }
    assert_eq!(sim.despawn(pos(201, 200), &mut r), Ok(centre));
}

#[test]
fn reset_releases_each_handle_once() {
    let mut r = CellLog::new(101);
    let mut sim = board_with(&[(1, 1), (2, 2), (3, 3)], &mut r);
    sim.reset(&mut r);
    let mut released = r.destroyed_handles().clone();
    released.sort();
    assert_eq!(released, vec![101, 102, 103]);
    sim.reset(&mut r);
    assert_eq!(r.destroyed_handles().len(), 3);
    assert_eq!(r.created_cells().len(), 3);
}

#[test]
fn randomize_matches_its_draws() {
    let mut r = CellLog::new(101);
    let mut sim = board_with(&[(6, 6), (7, 7)], &mut r);
    let draws = sim.randomize(&mut r);
    assert_eq!(draws.len(), BOARD_CELLS as usize);
    let mut expected = HashSet::new();
    for x in 0..BOARD_WIDTH {
        for y in 0..BOARD_HEIGHT {
            if draws[x * BOARD_HEIGHT + y] > RANDOMIZE_THRESHOLD {
                expected.insert((x, y));
            }
        }
    }
    assert_eq!(live_cells(&sim), expected);
    let mut released = r.destroyed_handles().clone();
    released.sort();
    assert_eq!(released, vec![101, 102]);
    assert_eq!(r.created_cells().len(), 2 + expected.len());
    assert_eq!(drawn(&r).len(), expected.len());
}

#[test]
fn take_log_empties_the_log() {
    let mut r = CellLog::new(101);
    let mut sim = board_with(&[(1, 1)], &mut r);
    sim.despawn(pos(1, 1), &mut r).unwrap();
    let (created, destroyed) = r.take_log();
    assert_eq!(created, vec![(pos(1, 1), 101)]);
    assert_eq!(destroyed, vec![101]);
    assert!(r.created_cells().is_empty() && r.destroyed_handles().is_empty());
    sim.spawn(pos(2, 2), &mut r).unwrap();
    assert_eq!(*r.created_cells(), vec![(pos(2, 2), 102)]);
}
