use cellsim::feeding::{
    cell_food_intersection, feed, food_spawning, pending_food, scatter, Contact,
};
use cellsim::fixed::{HALF_PI, LIMIT, ONE};
use cellsim::lifecycle::{
    age, decrement_energy, divide, mutation_demand, offspring, split_cells,
};
use cellsim::params::{
    BIRTH_ENERGY, ENERGY_PER_FOOD, FIXED_DELTA, FOOD_PERIOD, MIN_ENERGY, SPLIT_ENERGY,
};
use cellsim::registry::{spawn_cell, spawn_eye, spawn_food};
use cellsim::samples::Samples;
use cellsim::sensing::{eye_activation, eye_sensing, glimpse, vision_cone, Sighting};
use cellsim::thinking::{advance, cell_thinking, think};
use cellsim::timer::{FoodTimer, Timer};
use cellsim::world::{
    CellDespawnEvent, CellSpawnEvent, Entity, Eye, EyeSpawnEvent, Flagellum, FlagellumSpawnEvent,
    Food, FoodDespawnEvent, FoodSpawnEvent, Notification, Point, Slot, World,
};

fn identity(n: usize) -> Vec<i64> {
    let mut w = vec![0; n * n];
    for i in 0..n {
        w[i * n + i] = ONE;
    }
    w
}

fn origin() -> Point {
    Point { x: 0, y: 0 }
}

/// A cell with one flagellum and one eye, the identity for weights and zero
/// biases. Its flagellum, its eye and the cell take the next three handles.
fn plain_cell(world: &mut World, energy: i64, state: Vec<i64>) -> Entity {
    let n = state.len();
    spawn_cell(world, origin(), 0, energy, vec![(0, 0)], vec![0], identity(n), vec![0; n], state)
        .unwrap()
}

fn eye_level(world: &World, eye: Entity) -> i64 {
    match &world.slots[eye] {
        Slot::Eye(e) => e.activation,
        _ => panic!("no eye"),
    }
}

fn thrust(world: &World, flagellum: Entity) -> i64 {
    match &world.slots[flagellum] {
        Slot::Flagellum(f) => f.activation,
        _ => panic!("no flagellum"),
    }
}

#[test]
fn food_at_the_eye_is_fully_visible() {
    assert_eq!(glimpse(Point { x: 17, y: -5 }, Point { x: 17, y: -5 }), ONE);
    let mut w = World::new();
    let eye = spawn_eye(&mut w, 0);
    let food = spawn_food(&mut w, Point { x: 17, y: -5 });
    eye_sensing(
        &mut w,
        &vec![Sighting { eye, origin: Point { x: 17, y: -5 }, overlaps: vec![food] }],
    );
    assert_eq!(eye_level(&w, eye), ONE);
}

#[test]
fn food_at_range_or_beyond_is_invisible() {
    assert_eq!(glimpse(origin(), Point { x: 1000 * ONE, y: 0 }), 0);
    assert_eq!(glimpse(origin(), Point { x: 0, y: -1000 * ONE }), 0);
    assert_eq!(glimpse(origin(), Point { x: 5000 * ONE, y: 3 }), 0);
    assert_eq!(glimpse(origin(), Point { x: 999 * ONE, y: 999 * ONE }), 0);
    assert_eq!(glimpse(Point { x: i64::MIN, y: i64::MIN }, Point { x: i64::MAX, y: i64::MAX }), 0);
    assert_eq!(glimpse(origin(), Point { x: 1000 * ONE - 1000, y: 0 }), 1);
    assert_eq!(glimpse(origin(), Point { x: 1000 * ONE - 1, y: 0 }), 1);
}

#[test]
fn visibility_falls_off_linearly() {
    assert_eq!(glimpse(origin(), Point { x: 250 * ONE, y: 0 }), 750_000);
    assert_eq!(glimpse(origin(), Point { x: 300 * ONE, y: -400 * ONE }), 500_000);
    assert_eq!(glimpse(Point { x: -300 * ONE, y: 400 * ONE }, origin()), 500_000);
    assert_eq!(glimpse(origin(), Point { x: 1, y: 0 }), ONE);
    assert_eq!(glimpse(origin(), Point { x: 1000, y: 0 }), ONE - 1);
    assert_eq!(glimpse(origin(), Point { x: ONE, y: ONE }), ONE - 1414);
}

#[test]
fn eye_without_food_in_its_cone_sees_nothing() {
    let mut w = World::new();
    let eye = spawn_eye(&mut w, 0);
    let other = spawn_eye(&mut w, 0);
    let food = spawn_food(&mut w, origin());
    eye_sensing(&mut w, &vec![Sighting { eye, origin: origin(), overlaps: vec![food] }]);
    assert_eq!(eye_level(&w, eye), ONE);
    eye_sensing(&mut w, &vec![Sighting { eye, origin: origin(), overlaps: vec![] }]);
    assert_eq!(eye_level(&w, eye), 0);
    eye_sensing(&mut w, &vec![Sighting { eye, origin: origin(), overlaps: vec![food] }]);
    assert_eq!(eye_level(&w, eye), ONE);
    eye_sensing(&mut w, &vec![Sighting { eye: other, origin: origin(), overlaps: vec![food] }]);
    assert_eq!(eye_level(&w, eye), 0);
    assert_eq!(eye_level(&w, other), ONE);
    eye_sensing(&mut w, &vec![]);
    assert_eq!(eye_level(&w, other), 0);
    assert_eq!(eye_activation(&w, origin(), &vec![]), 0);
}

#[test]
fn nearest_food_dominates() {
    let mut w = World::new();
    let eye = spawn_eye(&mut w, 0);
    let far = spawn_food(&mut w, Point { x: 800 * ONE, y: 0 });
    let near = spawn_food(&mut w, Point { x: 0, y: 100 * ONE });
    let mid = spawn_food(&mut w, Point { x: -500 * ONE, y: 0 });
    assert_eq!(eye_activation(&w, origin(), &vec![far, near, mid]), 900_000);
    assert_eq!(eye_activation(&w, origin(), &vec![far, mid]), 500_000);
    eye_sensing(
        &mut w,
        &vec![
            Sighting { eye, origin: origin(), overlaps: vec![far] },
            Sighting { eye, origin: origin(), overlaps: vec![mid, near] },
            Sighting { eye, origin: origin(), overlaps: vec![far] },
        ],
    );
    assert_eq!(eye_level(&w, eye), 900_000);
}

#[test]
fn only_live_food_is_seen() {
    let mut w = World::new();
    let eye = spawn_eye(&mut w, 0);
    let cell = plain_cell(&mut w, BIRTH_ENERGY, vec![0, 0]);
    let food = spawn_food(&mut w, Point { x: 400 * ONE, y: 0 });
    assert_eq!(eye_activation(&w, origin(), &vec![cell, eye, 9999, food]), 600_000);
    feed(&mut w, cell, &vec![food]);
    assert_eq!(eye_activation(&w, origin(), &vec![cell, eye, 9999, food]), 0);
    eye_sensing(
        &mut w,
        &vec![
            Sighting { eye: 9999, origin: origin(), overlaps: vec![food] },
            Sighting { eye: cell, origin: origin(), overlaps: vec![food] },
        ],
    );
    assert!(w.is_cell(cell));
    assert_eq!(eye_level(&w, eye), 0);
}

#[test]
fn controller_waits_for_its_period() {
    let mut w = World::new();
    let cell = plain_cell(&mut w, BIRTH_ENERGY, vec![0, 2 * ONE]);
    let flagellum = cell - 2;
    think(&mut w, cell);
    assert_eq!(w.cell(cell).unwrap().state, vec![0, 2 * ONE]);
    assert_eq!(w.cell(cell).unwrap().timer.0.elapsed, 16_667);
    cell_thinking(&mut w);
    assert_eq!(w.cell(cell).unwrap().state, vec![0, 2 * ONE]);
    assert_eq!(thrust(&w, flagellum), 0);
    cell_thinking(&mut w);
    assert_eq!(w.cell(cell).unwrap().state, vec![0, 880_797]);
    assert_eq!(w.cell(cell).unwrap().timer.0.elapsed, 1);
    assert_eq!(thrust(&w, flagellum), 880_797);
    cell_thinking(&mut w);
    assert_eq!(w.cell(cell).unwrap().state, vec![0, 880_797]);
}

#[test]
fn identity_controller_applies_the_function_of_each_segment() {
    let mut w = World::new();
    let cell = plain_cell(&mut w, BIRTH_ENERGY, vec![123, 500_000, -ONE, ONE]);
    let flagellum = cell - 2;
    let eye = cell - 1;
    let food = spawn_food(&mut w, Point { x: 250 * ONE, y: 0 });
    eye_sensing(&mut w, &vec![Sighting { eye, origin: origin(), overlaps: vec![food] }]);
    cell_thinking(&mut w);
    cell_thinking(&mut w);
    cell_thinking(&mut w);
    assert_eq!(w.cell(cell).unwrap().state, vec![750_000, 462_117, -761_594, 731_059]);
    assert_eq!(thrust(&w, flagellum), 731_059);
    assert_eq!(eye_level(&w, eye), 750_000);
}

#[test]
fn recurrent_update_multiplies_state_by_weights() {
    let mut w = World::new();
    let cell = spawn_cell(
        &mut w,
        origin(),
        0,
        BIRTH_ENERGY,
        vec![(0, 0)],
        vec![0],
        vec![2 * ONE, ONE / 2, 0, -ONE, ONE, ONE, ONE / 4, 0, -3 * ONE],
        vec![100_000, -200_000, 50_000],
        vec![999, ONE, 2 * ONE],
    )
    .unwrap();
    let eye = cell - 1;
    let food = spawn_food(&mut w, Point { x: 500 * ONE, y: 0 });
    eye_sensing(&mut w, &vec![Sighting { eye, origin: origin(), overlaps: vec![food] }]);
    let seen = vec![500_000];
    let next = advance(w.cell(cell).unwrap(), &seen);
    // injected state: [0.5, 1, 2]
    // unit 0: 0.5 * 2 - 1 + 0.5 + 0.1 = 0.6, left as it is
    // unit 1: 0.25 + 1 + 0 - 0.2 = 1.05, hyperbolic tangent
    // unit 2: 0 + 1 - 6 + 0.05 = -4.95, logistic function
    assert_eq!(next[0], 600_000);
    assert_eq!(next[1], 781_806);
    assert_eq!(next[2], 7_034);
    cell_thinking(&mut w);
    cell_thinking(&mut w);
    cell_thinking(&mut w);
    assert_eq!(w.cell(cell).unwrap().state, next);
    assert_eq!(thrust(&w, cell - 2), 7_034);
}

#[test]
fn recurrent_update_saturates() {
    let mut w = World::new();
    let cell = spawn_cell(
        &mut w,
        origin(),
        0,
        BIRTH_ENERGY,
        vec![(0, 0)],
        vec![0],
        vec![LIMIT, 0, 0, 0, 0, 0, 0, 0, 0],
        vec![0, 0, 0],
        vec![0, 0, 0],
    )
    .unwrap();
    let next = advance(w.cell(cell).unwrap(), &vec![ONE]);
    assert_eq!(next, vec![LIMIT, 0, 500_000]);
    let next = advance(w.cell(cell).unwrap(), &vec![ONE / 2]);
    assert_eq!(next, vec![LIMIT / 2, 0, 500_000]);
}

#[test]
fn cell_eats_the_food_it_touches() {
    let mut w = World::new();
    let cell = plain_cell(&mut w, BIRTH_ENERGY, vec![0, 0]);
    let a = spawn_food(&mut w, origin());
    let b = spawn_food(&mut w, origin());
    let c = spawn_food(&mut w, origin());
    w.collect_events();
    cell_food_intersection(&mut w, &vec![Contact { cell, overlaps: vec![a, cell, c, 777] }]);
    assert_eq!(w.cell(cell).unwrap().energy, BIRTH_ENERGY + 2 * ENERGY_PER_FOOD);
    assert!(!w.is_food(a));
    assert!(w.is_food(b));
    assert!(!w.is_food(c));
    assert_eq!(
        w.collect_events(),
        vec![
            Notification::FoodDespawn(FoodDespawnEvent(a)),
            Notification::FoodDespawn(FoodDespawnEvent(c)),
        ]
    );
    assert_eq!(ENERGY_PER_FOOD, 10 * ONE);
}

#[test]
fn contested_food_is_credited_once() {
    let mut w = World::new();
    let first = plain_cell(&mut w, BIRTH_ENERGY, vec![0, 0]);
    let second = plain_cell(&mut w, BIRTH_ENERGY, vec![0, 0]);
    let food = spawn_food(&mut w, origin());
    w.collect_events();
    cell_food_intersection(
        &mut w,
        &vec![
            Contact { cell: first, overlaps: vec![food] },
            Contact { cell: second, overlaps: vec![food] },
        ],
    );
    let credited = (w.cell(first).unwrap().energy - BIRTH_ENERGY)
        + (w.cell(second).unwrap().energy - BIRTH_ENERGY);
    assert_eq!(credited, ENERGY_PER_FOOD);
    assert_eq!(w.cell(first).unwrap().energy, BIRTH_ENERGY + ENERGY_PER_FOOD);
    assert_eq!(w.cell(second).unwrap().energy, BIRTH_ENERGY);
    assert_eq!(w.collect_events(), vec![Notification::FoodDespawn(FoodDespawnEvent(food))]);
    assert_eq!(w.stock(), 0);
}

#[test]
fn food_named_twice_by_one_cell_is_credited_once() {
    let mut w = World::new();
    let cell = plain_cell(&mut w, BIRTH_ENERGY, vec![0, 0]);
    let food = spawn_food(&mut w, origin());
    feed(&mut w, cell, &vec![food, food]);
    assert_eq!(w.cell(cell).unwrap().energy, BIRTH_ENERGY + ENERGY_PER_FOOD);
}

#[test]
fn what_is_no_cell_does_not_eat() {
    let mut w = World::new();
    let eye = spawn_eye(&mut w, 0);
    let food = spawn_food(&mut w, origin());
    feed(&mut w, eye, &vec![food]);
    feed(&mut w, food, &vec![food]);
    feed(&mut w, 4242, &vec![food]);
    assert!(w.is_food(food));
}

#[test]
fn energy_credit_stops_at_the_largest_value() {
    let mut w = World::new();
    let cell = plain_cell(&mut w, i64::MAX - 5, vec![0, 0]);
    let food = spawn_food(&mut w, origin());
    feed(&mut w, cell, &vec![food]);
    assert_eq!(w.cell(cell).unwrap().energy, i64::MAX);
}

#[test]
fn energy_decays_by_the_fixed_delta() {
    let mut w = World::new();
    let cell = plain_cell(&mut w, BIRTH_ENERGY, vec![5, 6]);
    w.collect_events();
    decrement_energy(&mut w);
    assert_eq!(w.cell(cell).unwrap().energy, BIRTH_ENERGY - FIXED_DELTA);
    assert_eq!(w.cell(cell).unwrap().energy, 99_983_333);
    decrement_energy(&mut w);
    assert_eq!(w.cell(cell).unwrap().energy, BIRTH_ENERGY - 2 * FIXED_DELTA);
    assert_eq!(w.cell(cell).unwrap().state, vec![5, 6]);
    assert!(w.collect_events().is_empty());
}

#[test]
fn starving_cell_dies_with_one_notification() {
    let mut w = World::new();
    let lasting = plain_cell(&mut w, MIN_ENERGY + FIXED_DELTA, vec![0, 0]);
    let dying = plain_cell(&mut w, MIN_ENERGY + FIXED_DELTA - 1, vec![0, 0]);
    let food = spawn_food(&mut w, origin());
    w.collect_events();
    decrement_energy(&mut w);
    assert_eq!(w.cell(lasting).unwrap().energy, MIN_ENERGY);
    assert!(!w.is_cell(dying));
    assert!(matches!(w.slots[dying - 1], Slot::Vacant));
    assert!(matches!(w.slots[dying - 2], Slot::Vacant));
    assert_eq!(w.collect_events(), vec![Notification::CellDespawn(CellDespawnEvent(dying))]);
    feed(&mut w, dying, &vec![food]);
    think(&mut w, dying);
    age(&mut w, dying);
    let mut samples = Samples::new(vec![]);
    divide(&mut w, dying, &mut samples);
    eye_sensing(&mut w, &vec![Sighting { eye: dying - 1, origin: origin(), overlaps: vec![food] }]);
    assert!(w.is_food(food));
    assert!(matches!(w.slots[dying - 1], Slot::Vacant));
    assert!(w.collect_events().is_empty());
    decrement_energy(&mut w);
    assert!(!w.is_cell(lasting));
    assert_eq!(w.collect_events(), vec![Notification::CellDespawn(CellDespawnEvent(lasting))]);
    assert_eq!(w.population(), 0);
}

#[test]
fn cell_with_very_low_energy_dies() {
    let mut w = World::new();
    let cell = plain_cell(&mut w, i64::MIN, vec![0, 0]);
    decrement_energy(&mut w);
    assert!(!w.is_cell(cell));
}

#[test]
fn division_makes_two_children_of_the_parent() {
    let mut w = World::new();
    let parent = spawn_cell(
        &mut w,
        Point { x: 11, y: -12 },
        3_141_592,
        SPLIT_ENERGY,
        vec![(100, 1_570_000)],
        vec![200],
        vec![10, 20, 30, 40],
        vec![50, 60],
        vec![77, -88],
    )
    .unwrap();
    assert_eq!(parent, 2);
    w.collect_events();
    let mut samples = Samples::new(vec![
        1_500_000, 1_500_000, -2_000_000, 1_000_000, 0, -1_000_000, 500_000, 10, -10,
        -1_500_000, -40_000_000, 2_000_000, 3, 4, 5, 6, 7, 8, 9,
    ]);
    split_cells(&mut w, &mut samples);
    assert!(!w.is_cell(parent));
    assert!(matches!(w.slots[0], Slot::Vacant));
    assert!(matches!(w.slots[1], Slot::Vacant));
    assert_eq!(w.handles(), 9);
    assert_eq!(w.population(), 2);
    let first = w.cell(5).unwrap();
    let second = w.cell(8).unwrap();
    assert_eq!(first.state, vec![77, -88]);
    assert_eq!(second.state, vec![77, -88]);
    assert_eq!(first.energy, BIRTH_ENERGY);
    assert_eq!(second.energy, BIRTH_ENERGY);
    assert_eq!(BIRTH_ENERGY, 100 * ONE);
    assert_eq!(first.position, Point { x: 11, y: -12 });
    assert_eq!(second.position, Point { x: 11, y: -12 });
    assert_eq!(first.rotation, -3_041_593);
    assert_eq!(second.rotation, 3_041_592);
    assert_eq!(first.flagella, vec![3]);
    assert_eq!(first.eyes, vec![4]);
    assert_eq!(second.flagella, vec![6]);
    assert_eq!(second.eyes, vec![7]);
    assert_eq!(first.flagella_params, vec![(15_100, HALF_PI)]);
    assert_eq!(first.eye_params, vec![-19_800]);
    assert_eq!(first.weights, vec![100_010, 20, -99_970, 50_040]);
    assert_eq!(first.biases, vec![51, 59]);
    assert_eq!(second.flagella_params, vec![(-14_900, 1_170_000)]);
    assert_eq!(second.eye_params, vec![20_200]);
    assert_eq!(second.weights, vec![10, 20, 30, 40]);
    assert_eq!(second.biases, vec![50, 60]);
    assert!(matches!(
        w.slots[3],
        Slot::Flagellum(Flagellum {
            activation: 0,
            angle: 1_570_796,
            position: 15_100,
            parent: Some(5)
        })
    ));
    assert!(matches!(
        w.slots[7],
        Slot::Eye(Eye { activation: 0, position: 20_200, parent: Some(8) })
    ));
    assert_eq!(samples.remaining(), 1);
    assert_eq!(
        w.collect_events(),
        vec![
            Notification::CellDespawn(CellDespawnEvent(2)),
            Notification::FlagellumSpawn(FlagellumSpawnEvent(3)),
            Notification::EyeSpawn(EyeSpawnEvent(4)),
            Notification::CellSpawn(CellSpawnEvent(5)),
            Notification::FlagellumSpawn(FlagellumSpawnEvent(6)),
            Notification::EyeSpawn(EyeSpawnEvent(7)),
            Notification::CellSpawn(CellSpawnEvent(8)),
        ]
    );
    split_cells(&mut w, &mut samples);
    assert_eq!(w.handles(), 9);
}

#[test]
fn cell_below_the_ceiling_does_not_divide() {
    let mut w = World::new();
    let cell = plain_cell(&mut w, SPLIT_ENERGY - 1, vec![0, 0]);
    let mut samples = Samples::new(vec![1, 2, 3]);
    split_cells(&mut w, &mut samples);
    assert!(w.is_cell(cell));
    assert_eq!(w.handles(), 3);
    assert_eq!(samples.remaining(), 3);
    assert_eq!(SPLIT_ENERGY, 200 * ONE);
    assert_eq!(MIN_ENERGY, 70 * ONE);
}

#[test]
fn thrust_angle_stays_within_a_quarter_turn() {
    let mut w = World::new();
    let cell = spawn_cell(
        &mut w,
        origin(),
        0,
        SPLIT_ENERGY,
        vec![(0, 1_500_000), (0, -1_500_000), (0, 0), (0, LIMIT)],
        vec![0, 0, 0, 0],
        identity(8),
        vec![0; 8],
        vec![0; 8],
    )
    .unwrap();
    let mut samples = Samples::new(vec![0, i64::MAX, 0, i64::MIN, 0, 200_000_000, 0, 0]);
    let seed = offspring(w.cell(cell).unwrap(), &mut samples, 0);
    assert_eq!(
        seed.flagella_params,
        vec![(0, HALF_PI), (0, -HALF_PI), (0, HALF_PI), (0, HALF_PI)]
    );
    let mut samples = Samples::new(vec![0, 7_000_000, 0, -7_000_000, 0, 100_000_000]);
    let seed = offspring(w.cell(cell).unwrap(), &mut samples, 0);
    assert_eq!(
        seed.flagella_params,
        vec![(0, 1_570_000), (0, -1_570_000), (0, 1_000_000), (0, HALF_PI)]
    );
    assert_eq!(seed.weights, identity(8));
}

#[test]
fn scattered_food_lands_where_the_samples_say() {
    let mut w = World::new();
    let mut samples = Samples::new(vec![1_000_000, -2_000_000, 500_000]);
    scatter(&mut w, &mut samples, 15_000_000_000, 3);
    assert!(matches!(
        w.slots[0],
        Slot::Food(Food { position: Point { x: 15_000_000_000, y: -30_000_000_000 } })
    ));
    assert!(matches!(
        w.slots[1],
        Slot::Food(Food { position: Point { x: 7_500_000_000, y: 0 } })
    ));
    assert!(matches!(w.slots[2], Slot::Food(Food { position: Point { x: 0, y: 0 } })));
    assert_eq!(w.stock(), 3);
    assert_eq!(
        w.collect_events(),
        vec![
            Notification::FoodSpawn(FoodSpawnEvent(0)),
            Notification::FoodSpawn(FoodSpawnEvent(1)),
            Notification::FoodSpawn(FoodSpawnEvent(2)),
        ]
    );
}

#[test]
fn food_trickles_in_on_its_timer() {
    let mut w = World::new();
    let mut timer = FoodTimer(Timer::new(FOOD_PERIOD));
    let mut samples = Samples::new(vec![1_000_000, 1_000_000]);
    food_spawning(&mut w, &mut timer, &mut samples);
    food_spawning(&mut w, &mut timer, &mut samples);
    assert_eq!(w.stock(), 0);
    assert_eq!(samples.remaining(), 2);
    food_spawning(&mut w, &mut timer, &mut samples);
    assert_eq!(w.stock(), 1);
    assert_eq!(samples.remaining(), 0);
    assert!(matches!(
        w.slots[0],
        Slot::Food(Food { position: Point { x: 15_000_000_000, y: 15_000_000_000 } })
    ));
    let mut slow = FoodTimer(Timer::new(5_000));
    food_spawning(&mut w, &mut slow, &mut samples);
    assert_eq!(w.stock(), 4);
}

#[test]
fn vision_cone_reaches_as_far_as_the_eye_sees() {
    let cone = vision_cone();
    assert_eq!(
        cone,
        vec![
            Point { x: -10 * ONE, y: -5 * ONE },
            Point { x: 10 * ONE, y: -5 * ONE },
            Point { x: 300 * ONE, y: -1000 * ONE },
            Point { x: -300 * ONE, y: -1000 * ONE },
        ]
    );
    assert_eq!(glimpse(Point { x: 0, y: 0 }, cone[2]), 0);
}

#[test]
fn demand_counts_the_samples_of_every_cell_that_can_divide() {
    let mut w = World::new();
    assert_eq!(mutation_demand(&w), 0);
    plain_cell(&mut w, SPLIT_ENERGY - 1, vec![0, 0]);
    assert_eq!(mutation_demand(&w), 0);
    plain_cell(&mut w, SPLIT_ENERGY, vec![0, 0]);
    assert_eq!(mutation_demand(&w), 2 * 9);
    plain_cell(&mut w, SPLIT_ENERGY + 5, vec![0, 0, 0]);
    assert_eq!(mutation_demand(&w), 2 * 9 + 2 * 15);
    spawn_food(&mut w, origin());
    let mut samples = Samples::new(vec![1; 100]);
    split_cells(&mut w, &mut samples);
    assert_eq!(samples.remaining(), 100 - (2 * 9 + 2 * 15));
    assert_eq!(mutation_demand(&w), 0);
    assert_eq!(w.population(), 5);
}

#[test]
fn pending_food_looks_one_tick_ahead() {
    let mut timer = FoodTimer(Timer::new(FOOD_PERIOD));
    let mut w = World::new();
    let mut samples = Samples::new(vec![]);
    for _ in 0..7 {
        let due = pending_food(&timer);
        let before = w.stock();
        food_spawning(&mut w, &mut timer, &mut samples);
        assert_eq!(w.stock() - before, due as usize);
    }
    assert_eq!(w.stock(), 2);
    assert_eq!(pending_food(&FoodTimer(Timer::new(1_000))), 16);
}
