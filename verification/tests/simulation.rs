use jeu_de_la_vie::cellule::{
    paint_cell, reset_paint_position, CellPosition, CellStore, LastPaintedPosition,
};
use jeu_de_la_vie::generation::{
    calculate_generation_changes, calculate_next_generation, cell_params_listener, cell_system,
    setup_cells, CellParams, NewGenTimer,
};
use jeu_de_la_vie::pattern::{place_pattern, Patterns};
use jeu_de_la_vie::random::generate_random_cells;
use jeu_de_la_vie::rules::{should_cell_be_born, should_cell_survive};

fn pos(x: isize, y: isize) -> CellPosition {
    CellPosition { x, y }
}

fn store_of(coords: &[(isize, isize)]) -> CellStore {
    let mut store = CellStore::new();
    for &(x, y) in coords {
        store.spawn_cell(pos(x, y));
    }
    store
}

fn alive_sorted(store: &CellStore) -> Vec<(isize, isize)> {
    let mut v: Vec<(isize, isize)> = store
        .alive_entries()
        .into_iter()
        .map(|(c, _)| (c.x, c.y))
        .collect();
    v.sort();
    v
}

#[test]
fn rules_over_full_domain() {
    for n in 0..=8usize {
        assert_eq!(should_cell_survive(n), n == 2 || n == 3);
        assert_eq!(should_cell_be_born(n), n == 3);
    }
}

#[test]
fn spawn_then_kill_pools_handle_once() {
    let mut store = CellStore::new();
    let c = pos(7, -3);
    let h = store.spawn_cell(c);
    store.kill_cell(c);
    assert!(!store.is_alive(c));
    let occurrences = store
        .dead_pool
        .entities
        .iter()
        .filter(|&&e| e == h)
        .count();
    assert_eq!(occurrences, 1);
}

#[test]
fn spawn_reuses_pooled_handle() {
    let mut store = CellStore::new();
    let h = store.spawn_cell(pos(0, 0));
    store.kill_cell(pos(0, 0));
    let h2 = store.spawn_cell(pos(5, 5));
    assert_eq!(h, h2);
    assert_eq!(store.pool_len(), 0);
}

#[test]
fn toggle_paints_and_erases() {
    let mut store = CellStore::new();
    let c = pos(2, 2);
    store.toggle_cell(c);
    assert!(store.is_alive(c));
    store.toggle_cell(c);
    assert!(!store.is_alive(c));
    assert_eq!(store.pool_len(), 1);
}

#[test]
fn clear_empties_the_grid() {
    let mut store = store_of(&[(0, 0), (1, 0), (2, 0), (5, 5)]);
    store.clear();
    assert_eq!(store.alive_count(), 0);
    assert_eq!(store.pool_len(), 4);
}

#[test]
fn blinker_oscillates_with_period_two() {
    let mut store = store_of(&[(0, 0), (1, 0), (2, 0)]);
    calculate_next_generation(&mut store);
    assert_eq!(alive_sorted(&store), vec![(1, -1), (1, 0), (1, 1)]);
    calculate_next_generation(&mut store);
    assert_eq!(alive_sorted(&store), vec![(0, 0), (1, 0), (2, 0)]);
}

#[test]
fn glider_translates_by_one_one_in_four_generations() {
    let seed = Patterns::from_rle_string("bo$2bo$3o!");
    let mut store = CellStore::new();
    for &(x, y) in &seed {
        store.spawn_cell(pos(x as isize, y as isize));
    }
    for _ in 0..4 {
        calculate_next_generation(&mut store);
    }
    let mut expected: Vec<(isize, isize)> = seed
        .iter()
        .map(|&(x, y)| (x as isize + 1, y as isize + 1))
        .collect();
    expected.sort();
    assert_eq!(alive_sorted(&store), expected);
}

#[test]
fn block_is_a_fixed_point() {
    let mut store = store_of(&[(0, 0), (1, 0), (0, 1), (1, 1)]);
    for _ in 0..10 {
        calculate_next_generation(&mut store);
        assert_eq!(alive_sorted(&store), vec![(0, 0), (0, 1), (1, 0), (1, 1)]);
    }
}

#[test]
fn lone_cell_dies_and_empty_grid_stays_empty() {
    let mut store = store_of(&[(4, 4)]);
    calculate_next_generation(&mut store);
    assert_eq!(store.alive_count(), 0);
    calculate_next_generation(&mut store);
    assert_eq!(store.alive_count(), 0);
}

#[test]
fn kill_and_spawn_lists_are_disjoint_on_random_grids() {
    for round in 0..20isize {
        let cells = generate_random_cells(-10 - round, -10, 25, 25);
        let mut store = CellStore::new();
        store.spawn(&cells);
        let (kills, spawns) = calculate_generation_changes(&store);
        for k in &kills {
            assert!(
                !spawns.contains(k),
                "kill and spawn lists share {:?}",
                k
            );
        }
    }
}

#[test]
fn random_cells_stay_in_rectangle_without_duplicates() {
    let cells = generate_random_cells(-5, 3, 10, 7);
    for c in &cells {
        assert!(-5 <= c.x && c.x < 5);
        assert!(3 <= c.y && c.y < 10);
    }
    for (i, a) in cells.iter().enumerate() {
        for b in &cells[i + 1..] {
            assert!(a != b);
        }
    }
}

#[test]
fn place_pattern_translates_offsets() {
    let mut store = CellStore::new();
    let seed = Patterns::from_rle_string("3o!");
    place_pattern(&mut store, pos(10, -2), &seed);
    assert_eq!(alive_sorted(&store), vec![(10, -2), (11, -2), (12, -2)]);
}

#[test]
fn place_pattern_skips_already_living_cells() {
    let mut store = store_of(&[(10, -2)]);
    let seed = Patterns::from_rle_string("3o!");
    place_pattern(&mut store, pos(10, -2), &seed);
    assert_eq!(alive_sorted(&store), vec![(10, -2), (11, -2), (12, -2)]);
    assert_eq!(store.pool_len(), 0);
}

#[test]
fn paused_step_runs_exactly_once() {
    let mut store = store_of(&[(0, 0), (1, 0), (2, 0)]);
    let mut params = CellParams::default();
    params.running = false;
    params.calculate_next_gen = true;
    let mut timer = NewGenTimer::new(params.period_micros);
    cell_system(&mut store, &mut params, &mut timer, 1_000_000_000);
    assert_eq!(alive_sorted(&store), vec![(1, -1), (1, 0), (1, 1)]);
    assert!(!params.calculate_next_gen);
    // A second frame without a new request computes nothing.
    cell_system(&mut store, &mut params, &mut timer, 1_000_000_000);
    assert_eq!(alive_sorted(&store), vec![(1, -1), (1, 0), (1, 1)]);
}

#[test]
fn running_mode_waits_for_the_timer() {
    let mut store = store_of(&[(0, 0), (1, 0), (2, 0)]);
    let mut params = CellParams::default();
    let mut timer = NewGenTimer::new(params.period_micros);
    // Half the interval: no generation yet.
    cell_system(&mut store, &mut params, &mut timer, 500_000);
    assert_eq!(alive_sorted(&store), vec![(0, 0), (1, 0), (2, 0)]);
    // The second half reaches the interval: one generation.
    cell_system(&mut store, &mut params, &mut timer, 500_000);
    assert_eq!(alive_sorted(&store), vec![(1, -1), (1, 0), (1, 1)]);
}

#[test]
fn changing_the_period_resets_timer_progress() {
    let mut params = CellParams::default();
    let mut timer = NewGenTimer::new(params.period_micros);
    timer.tick(700_000);
    // Same period: the timer keeps its progress.
    cell_params_listener(&params, &mut timer);
    assert_eq!(timer.elapsed_micros, 700_000);
    // A new period takes effect and progress restarts.
    params.period_micros = 250_000;
    cell_params_listener(&params, &mut timer);
    assert_eq!(timer.duration_micros, 250_000);
    assert_eq!(timer.elapsed_micros, 0);
}

#[test]
fn repeating_timer_keeps_remainder() {
    let mut timer = NewGenTimer::new(1_000);
    assert!(!timer.tick(999));
    assert!(timer.tick(301));
    assert_eq!(timer.elapsed_micros, 300);
}

#[test]
fn drag_paints_each_position_once() {
    let mut store = CellStore::new();
    let mut last = LastPaintedPosition::default();
    let c = pos(3, 4);
    assert!(paint_cell(&mut store, &mut last, c));
    assert!(store.is_alive(c));
    // Still hovering the same cell: nothing is toggled again.
    assert!(!paint_cell(&mut store, &mut last, c));
    assert!(store.is_alive(c));
    // After the button is released, the same cell can be erased.
    reset_paint_position(&mut last);
    assert!(paint_cell(&mut store, &mut last, c));
    assert!(!store.is_alive(c));
}

#[test]
fn tick_recycles_killed_handles() {
    let mut store = CellStore::new();
    setup_cells(&mut store);
    assert_eq!(store.next_handle, 5);
    // The first generation kills one cell and spawns two: the killed
    // handle is reused for one birth, one fresh handle serves the
    // other, and the pool ends the tick empty.
    calculate_next_generation(&mut store);
    assert_eq!(store.alive_count(), 6);
    assert_eq!(store.pool_len(), 0);
    assert_eq!(store.next_handle, 6);
}

#[test]
fn place_pattern_reuses_pooled_handles() {
    let mut store = store_of(&[(50, 50), (60, 60)]);
    store.kill_cell(pos(50, 50));
    store.kill_cell(pos(60, 60));
    assert_eq!(store.pool_len(), 2);
    // Three placements: two reuse the pooled handles, one is fresh.
    let seed = Patterns::from_rle_string("3o!");
    place_pattern(&mut store, pos(0, 0), &seed);
    assert_eq!(store.pool_len(), 0);
    assert_eq!(store.next_handle, 3);
}

#[test]
fn clear_pools_exactly_the_live_handles() {
    let mut store = CellStore::new();
    let h1 = store.spawn_cell(pos(1, 1));
    let h2 = store.spawn_cell(pos(2, 2));
    store.clear();
    let mut pooled = store.dead_pool.entities.clone();
    pooled.sort();
    let mut expected = vec![h1, h2];
    expected.sort();
    assert_eq!(pooled, expected);
}
