use cellsim::feeding::Contact;
use cellsim::fixed::ONE;
use cellsim::params::{
    BIRTH_ENERGY, FIXED_DELTA, FOOD_PERIOD, FOUNDERS, INITIAL_FOOD, MIN_ENERGY, REPORT_PERIOD,
    SPLIT_ENERGY,
};
use cellsim::registry::spawn_cell;
use cellsim::samples::Samples;
use cellsim::schedule::{
    cell_setup, count_cells, dynamic_thing, fixed_thing, fixed_update, founder_seed,
    resource_init, setup_demand, Census,
};
use cellsim::sensing::Sighting;
use cellsim::timer::{DebugTimer, FoodTimer, TimeCounter, Timer};
use cellsim::world::{Entity, Point, Slot, World};

fn identity(n: usize) -> Vec<i64> {
    let mut w = vec![0; n * n];
    for i in 0..n {
        w[i * n + i] = ONE;
    }
    w
}

fn plain_cell(world: &mut World, position: Point, energy: i64) -> Entity {
    spawn_cell(
        world,
        position,
        0,
        energy,
        vec![(0, 0)],
        vec![0],
        identity(2),
        vec![0; 2],
        vec![300_000, -400_000],
    )
    .unwrap()
}

/// A food timer that never lets food in during a test.
fn idle_timer() -> FoodTimer {
    FoodTimer(Timer::new(u64::MAX))
}

#[test]
fn cell_without_food_starves_at_the_expected_tick() {
    let mut w = World::new();
    let cell = plain_cell(&mut w, Point { x: 0, y: 0 }, 100 * ONE);
    let mut timer = idle_timer();
    let mut samples = Samples::new(vec![]);
    let expected = ((100 * ONE - MIN_ENERGY) as u64).div_ceil(FIXED_DELTA as u64);
    assert_eq!(expected, 1800);
    let mut tick = 0;
    while w.is_cell(cell) {
        fixed_update(&mut w, &mut timer, &vec![], &vec![], &mut samples);
        tick += 1;
        assert!(tick <= expected);
        if tick < expected {
            assert_eq!(w.cell(cell).unwrap().energy, 100 * ONE - tick as i64 * FIXED_DELTA);
        }
    }
    assert_eq!(tick, expected);
    assert_eq!(w.population(), 0);
}

#[test]
fn cell_that_decays_below_the_ceiling_does_not_divide() {
    let mut w = World::new();
    let parent = plain_cell(&mut w, Point { x: 123_456, y: -654_321 }, 200 * ONE);
    let mut timer = idle_timer();
    let mut samples = Samples::new(vec![250_000; 40]);
    fixed_update(&mut w, &mut timer, &vec![], &vec![], &mut samples);
    assert_eq!(w.population(), 1);
    assert!(w.is_cell(parent));
    assert_eq!(w.cell(parent).unwrap().energy, 200 * ONE - FIXED_DELTA);
    assert_eq!(samples.remaining(), 40);
}

#[test]
fn cell_over_the_ceiling_divides_in_one_tick() {
    let mut w = World::new();
    let bystander = plain_cell(&mut w, Point { x: 1, y: 1 }, 150 * ONE);
    let parent = plain_cell(&mut w, Point { x: 123_456, y: -654_321 }, 200 * ONE + FIXED_DELTA);
    let state_before = w.cell(parent).unwrap().state.clone();
    let before = w.population();
    let mut timer = idle_timer();
    let mut samples = Samples::new(vec![250_000; 40]);
    fixed_update(&mut w, &mut timer, &vec![], &vec![], &mut samples);
    assert_eq!(w.population(), before + 1);
    assert!(!w.is_cell(parent));
    assert!(w.is_cell(bystander));
    assert_eq!(w.cell(bystander).unwrap().energy, 150 * ONE - FIXED_DELTA);
    let mut children = 0;
    for id in 0..w.handles() {
        if id != bystander {
            if let Some(c) = w.cell(id) {
                children += 1;
                assert_eq!(c.position, Point { x: 123_456, y: -654_321 });
                assert_eq!(c.energy, BIRTH_ENERGY);
                assert_eq!(c.state, state_before);
            }
        }
    }
    assert_eq!(children, 2);
    assert_eq!(samples.remaining(), 40 - 2 * 9);
}

#[test]
fn cell_seeded_at_the_ceiling_divides_in_the_division_stage() {
    let mut w = World::new();
    let parent = plain_cell(&mut w, Point { x: 5, y: 6 }, SPLIT_ENERGY);
    let mut samples = Samples::new(vec![]);
    cellsim::lifecycle::split_cells(&mut w, &mut samples);
    assert_eq!(w.population(), 2);
    assert!(!w.is_cell(parent));
    for id in 0..w.handles() {
        if let Some(c) = w.cell(id) {
            assert_eq!(c.position, Point { x: 5, y: 6 });
            assert_eq!(c.state, vec![300_000, -400_000]);
            assert_eq!(c.energy, 100 * ONE);
        }
    }
}

#[test]
fn one_tick_runs_the_stages_in_order() {
    let mut w = World::new();
    let cell = plain_cell(&mut w, Point { x: 0, y: 0 }, SPLIT_ENERGY - 9 * ONE);
    let eye = cell - 1;
    let mut timer = FoodTimer(Timer::new(FIXED_DELTA as u64));
    let mut samples = Samples::new(vec![100, 200]);
    // The food that trickles in this tick takes the next handle; the cell
    // eats it in the same tick, so its eye no longer sees it, and the credit
    // lifts the cell over the ceiling.
    let food = w.handles();
    fixed_update(
        &mut w,
        &mut timer,
        &vec![Contact { cell, overlaps: vec![food] }],
        &vec![Sighting { eye, origin: Point { x: 0, y: 0 }, overlaps: vec![food] }],
        &mut samples,
    );
    assert!(matches!(w.slots[food], Slot::Vacant));
    assert!(!w.is_cell(cell));
    assert_eq!(w.population(), 2);
    assert_eq!(w.stock(), 0);
}

#[test]
fn setup_creates_founders_and_food() {
    let mut w = World::new();
    let mut samples = Samples::new(vec![1_000_000; 300_000]);
    cell_setup(&mut w, &mut samples);
    assert_eq!(w.population(), FOUNDERS);
    assert_eq!(w.population(), 20);
    assert_eq!(w.stock(), INITIAL_FOOD);
    assert_eq!(w.stock(), 10_000);
    assert_eq!(w.handles(), 20 * 7 + 10_000);
    assert_eq!(samples.remaining(), 300_000 - 20 * 10_202 - 20_000);
    assert_eq!(setup_demand(), 20 * 10_202 + 20_000);
    let first = w.cell(6).unwrap();
    assert_eq!(first.position, Point { x: 10_000 * ONE, y: 10_000 * ONE });
    assert_eq!(first.rotation, 0);
    assert_eq!(first.energy, 100 * ONE);
    assert_eq!(
        first.flagella_params,
        vec![(1_570_796, -785_398), (0, 0), (-1_570_796, 785_398)]
    );
    assert_eq!(first.eye_params, vec![2_722_714, 3_141_593, 3_560_472]);
    assert_eq!(first.weights, vec![500_000; 10_000]);
    assert_eq!(first.biases, vec![500_000; 100]);
    assert_eq!(first.state, vec![500_000; 100]);
    assert!(matches!(w.slots[140], Slot::Food(f) if f.position == Point { x: 10_000 * ONE, y: 10_000 * ONE }));
    let events = w.collect_events();
    assert_eq!(events.len(), 20 * 7 + 10_000);
}

#[test]
fn founder_takes_its_samples_in_order() {
    let mut values = vec![0; 10_202];
    values[0] = 2_000_000;
    values[1] = -1_000_000;
    values[2] = 1_000_000;
    values[10_001] = -2_000_000;
    values[10_002] = 3_000_000;
    values[10_102] = 4_000_000;
    values.push(42);
    let mut samples = Samples::new(values);
    let seed = founder_seed(&mut samples);
    assert_eq!(seed.position, Point { x: 20_000 * ONE, y: -10_000 * ONE });
    assert_eq!(seed.weights.len(), 10_000);
    assert_eq!(seed.weights[0], 500_000);
    assert_eq!(seed.weights[9_999], -1_000_000);
    assert_eq!(seed.biases.len(), 100);
    assert_eq!(seed.biases[0], 1_500_000);
    assert_eq!(seed.state.len(), 100);
    assert_eq!(seed.state[0], 2_000_000);
    assert_eq!(samples.draw(), 42);
}

#[test]
fn setup_without_samples_still_populates() {
    let mut w = World::new();
    let mut samples = Samples::new(vec![]);
    cell_setup(&mut w, &mut samples);
    assert_eq!(w.population(), 20);
    assert_eq!(w.stock(), 10_000);
    assert_eq!(w.cell(6).unwrap().weights, vec![0; 10_000]);
}

#[test]
fn resources_start_fresh() {
    let r = resource_init();
    assert_eq!(r.food_timer, FoodTimer(Timer::new(FOOD_PERIOD)));
    assert_eq!(r.debug_timer, DebugTimer(Timer::new(REPORT_PERIOD)));
    assert_eq!(r.time_counter, TimeCounter(0, 0));
    assert_eq!(FOOD_PERIOD, 50_000);
    assert_eq!(REPORT_PERIOD, 1_000_000);
}

#[test]
fn census_is_taken_once_per_period() {
    let mut w = World::new();
    plain_cell(&mut w, Point { x: 0, y: 0 }, BIRTH_ENERGY);
    cellsim::registry::spawn_food(&mut w, Point { x: 0, y: 0 });
    cellsim::registry::spawn_food(&mut w, Point { x: 0, y: 0 });
    let mut timer = resource_init().debug_timer;
    assert_eq!(count_cells(&w, &mut timer, 400_000), None);
    assert_eq!(count_cells(&w, &mut timer, 400_000), None);
    assert_eq!(
        count_cells(&w, &mut timer, 400_000),
        Some(Census { rate: 3, cell_count: 1, food_count: 2 })
    );
    assert_eq!(count_cells(&w, &mut timer, 16_667), None);
    let mut timer = resource_init().debug_timer;
    assert_eq!(
        count_cells(&w, &mut timer, 1_000_000),
        Some(Census { rate: 1, cell_count: 1, food_count: 2 })
    );
    let mut timer = DebugTimer(Timer::new(1));
    assert_eq!(count_cells(&w, &mut timer, 16_667).unwrap().rate, 60);
    assert_eq!(count_cells(&w, &mut timer, 8_000).unwrap().rate, 125);
    assert_eq!(count_cells(&w, &mut timer, 1).unwrap().rate, 1_000_000);
    assert_eq!(count_cells(&w, &mut timer, 3_000_000).unwrap().rate, 0);
    assert_eq!(count_cells(&w, &mut timer, u64::MAX).unwrap().rate, 0);
    let mut timer = DebugTimer(Timer::new(0));
    assert_eq!(count_cells(&w, &mut timer, 0).unwrap().rate, u64::MAX);
}

#[test]
fn fixed_ticks_are_reported_once_a_second() {
    let mut counter = TimeCounter(0, 0);
    assert_eq!(fixed_thing(&mut counter), None);
    assert_eq!(counter, TimeCounter(0, 1));
    dynamic_thing(&mut counter, 600_000);
    assert_eq!(fixed_thing(&mut counter), None);
    dynamic_thing(&mut counter, 600_000);
    assert_eq!(counter, TimeCounter(1_200_000, 2));
    assert_eq!(fixed_thing(&mut counter), Some(3));
    assert_eq!(counter, TimeCounter(200_000, 0));
    assert_eq!(fixed_thing(&mut counter), None);
    assert_eq!(counter, TimeCounter(200_000, 1));
}

#[test]
fn counters_stop_at_the_largest_value() {
    let mut counter = TimeCounter(u64::MAX - 5, u64::MAX);
    dynamic_thing(&mut counter, 10);
    assert_eq!(counter.0, u64::MAX);
    assert_eq!(fixed_thing(&mut counter), Some(u64::MAX));
    assert_eq!(counter, TimeCounter(u64::MAX - 1_000_000, 0));
}
