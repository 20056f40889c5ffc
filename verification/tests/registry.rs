use cellsim::fixed::{LIMIT, ONE};
use cellsim::params::THINKING_PERIOD;
use cellsim::registry::{
    confined, despawn_cell, despawn_food, examine, found, pairs_confined, shape_is_sound,
    spawn_cell, spawn_eye, spawn_flagellum, spawn_food,
};
use cellsim::world::{
    CellDespawnEvent, CellSpawnEvent, Entity, Eye, EyeSpawnEvent, Flagellum, FlagellumSpawnEvent,
    Food, FoodDespawnEvent, FoodSpawnEvent, Notification, Point, Seed, Slot, SpawnError, World,
};

fn identity(n: usize) -> Vec<i64> {
    let mut w = vec![0; n * n];
    for i in 0..n {
        w[i * n + i] = ONE;
    }
    w
}

fn origin() -> Point {
    Point { x: 0, y: 0 }
}

#[test]
fn empty_registry_holds_nothing() {
    let w = World::new();
    assert_eq!(w.handles(), 0);
    assert_eq!(w.population(), 0);
    assert_eq!(w.stock(), 0);
    assert!(!w.is_cell(0));
    assert!(!w.is_food(0));
    assert!(!w.is_eye(0));
    assert!(w.cell(0).is_none());
}

#[test]
fn spawn_cell_creates_organs_then_cell() {
    let mut w = World::new();
    let food = spawn_food(&mut w, Point { x: 7, y: 8 });
    assert_eq!(food, 0);
    let r = spawn_cell(
        &mut w,
        Point { x: 10, y: -20 },
        300,
        100 * ONE,
        vec![(11, 12), (21, 22)],
        vec![31, 41],
        identity(5),
        vec![1, 2, 3, 4, 5],
        vec![5, 4, 3, 2, 1],
    );
    assert_eq!(r, Ok(5));
    assert_eq!(w.handles(), 6);
    assert!(matches!(
        w.slots[1],
        Slot::Flagellum(Flagellum { activation: 0, angle: 12, position: 11, parent: Some(5) })
    ));
    assert!(matches!(
        w.slots[2],
        Slot::Flagellum(Flagellum { activation: 0, angle: 22, position: 21, parent: Some(5) })
    ));
    assert!(matches!(w.slots[3], Slot::Eye(Eye { activation: 0, position: 31, parent: Some(5) })));
    assert!(matches!(w.slots[4], Slot::Eye(Eye { activation: 0, position: 41, parent: Some(5) })));
    let c = w.cell(5).unwrap();
    assert_eq!(c.flagella, vec![1, 2]);
    assert_eq!(c.eyes, vec![3, 4]);
    assert_eq!(c.energy, 100 * ONE);
    assert_eq!(c.flagella_params, vec![(11, 12), (21, 22)]);
    assert_eq!(c.eye_params, vec![31, 41]);
    assert_eq!(c.weights, identity(5));
    assert_eq!(c.biases, vec![1, 2, 3, 4, 5]);
    assert_eq!(c.state, vec![5, 4, 3, 2, 1]);
    assert_eq!(c.position, Point { x: 10, y: -20 });
    assert_eq!(c.rotation, 300);
    assert_eq!(c.timer.0.period, THINKING_PERIOD);
    assert_eq!(c.timer.0.elapsed, 0);
    assert!(!c.timer.0.finished);
    assert_eq!(
        w.collect_events(),
        vec![
            Notification::FoodSpawn(FoodSpawnEvent(0)),
            Notification::FlagellumSpawn(FlagellumSpawnEvent(1)),
            Notification::FlagellumSpawn(FlagellumSpawnEvent(2)),
            Notification::EyeSpawn(EyeSpawnEvent(3)),
            Notification::EyeSpawn(EyeSpawnEvent(4)),
            Notification::CellSpawn(CellSpawnEvent(5)),
        ]
    );
    assert_eq!(w.population(), 1);
    assert_eq!(w.stock(), 1);
}

#[test]
fn spawn_cell_rejects_unequal_organ_counts() {
    let mut w = World::new();
    let r = spawn_cell(
        &mut w,
        origin(),
        0,
        ONE,
        vec![(0, 0), (0, 0)],
        vec![0],
        identity(4),
        vec![0; 4],
        vec![0; 4],
    );
    assert_eq!(r, Err(SpawnError::OrganCountMismatch));
    assert_eq!(w.handles(), 0);
    assert!(w.collect_events().is_empty());
}

#[test]
fn spawn_cell_rejects_misshapen_controller() {
    let mut w = World::new();
    let r = spawn_cell(
        &mut w,
        origin(),
        0,
        ONE,
        vec![(0, 0)],
        vec![0],
        vec![0; 15],
        vec![0; 4],
        vec![0; 4],
    );
    assert_eq!(r, Err(SpawnError::ControllerShape));
    let r = spawn_cell(
        &mut w,
        origin(),
        0,
        ONE,
        vec![(0, 0)],
        vec![0],
        vec![0; 16],
        vec![0; 3],
        vec![0; 4],
    );
    assert_eq!(r, Err(SpawnError::ControllerShape));
    assert_eq!(w.handles(), 0);
    assert!(w.collect_events().is_empty());
}

#[test]
fn spawn_cell_rejects_controller_smaller_than_organs() {
    let mut w = World::new();
    let r = spawn_cell(
        &mut w,
        origin(),
        0,
        ONE,
        vec![(0, 0), (0, 0)],
        vec![0, 0],
        identity(3),
        vec![0; 3],
        vec![0; 3],
    );
    assert_eq!(r, Err(SpawnError::ControllerTooSmall));
    assert_eq!(w.handles(), 0);
    let r = spawn_cell(
        &mut w,
        origin(),
        0,
        ONE,
        vec![(0, 0), (0, 0)],
        vec![0, 0],
        identity(4),
        vec![0; 4],
        vec![0; 4],
    );
    assert_eq!(r, Ok(4));
}

#[test]
fn spawn_cell_rejects_values_out_of_range() {
    let mut w = World::new();
    let r = spawn_cell(
        &mut w,
        origin(),
        0,
        ONE,
        vec![(0, 0)],
        vec![0],
        identity(2),
        vec![0, LIMIT + 1],
        vec![0; 2],
    );
    assert_eq!(r, Err(SpawnError::ValueOutOfRange));
    let r = spawn_cell(
        &mut w,
        origin(),
        0,
        ONE,
        vec![(0, -LIMIT - 1)],
        vec![0],
        identity(2),
        vec![0; 2],
        vec![0; 2],
    );
    assert_eq!(r, Err(SpawnError::ValueOutOfRange));
    assert_eq!(w.handles(), 0);
    let r = spawn_cell(
        &mut w,
        origin(),
        0,
        ONE,
        vec![(LIMIT, -LIMIT)],
        vec![LIMIT],
        vec![LIMIT, -LIMIT, 0, 0],
        vec![LIMIT, 0],
        vec![-LIMIT, 0],
    );
    assert_eq!(r, Ok(2));
}

#[test]
fn confinement_checks() {
    assert!(confined(&vec![]));
    assert!(confined(&vec![LIMIT, -LIMIT, 0]));
    assert!(!confined(&vec![0, LIMIT + 1]));
    assert!(!confined(&vec![-LIMIT - 1]));
    assert!(pairs_confined(&vec![(LIMIT, -LIMIT)]));
    assert!(!pairs_confined(&vec![(0, 0), (LIMIT + 1, 0)]));
    assert!(!pairs_confined(&vec![(0, -LIMIT - 1)]));
}

#[test]
fn despawn_cell_removes_the_cell_and_its_organs() {
    let mut w = World::new();
    let a = spawn_cell(
        &mut w,
        origin(),
        0,
        ONE,
        vec![(0, 0)],
        vec![0],
        identity(2),
        vec![0; 2],
        vec![0; 2],
    )
    .unwrap();
    let b = spawn_cell(
        &mut w,
        origin(),
        0,
        ONE,
        vec![(0, 0)],
        vec![0],
        identity(2),
        vec![0; 2],
        vec![0; 2],
    )
    .unwrap();
    let food = spawn_food(&mut w, origin());
    w.collect_events();
    despawn_cell(&mut w, a);
    assert!(matches!(w.slots[0], Slot::Vacant));
    assert!(matches!(w.slots[1], Slot::Vacant));
    assert!(matches!(w.slots[2], Slot::Vacant));
    assert!(matches!(w.slots[3], Slot::Flagellum(_)));
    assert!(matches!(w.slots[4], Slot::Eye(_)));
    assert!(w.is_cell(b));
    assert!(w.is_food(food));
    assert_eq!(w.collect_events(), vec![Notification::CellDespawn(CellDespawnEvent(a))]);
    assert_eq!(w.population(), 1);
    assert_eq!(w.handles(), 7);
}

#[test]
fn despawn_cell_ignores_what_is_no_cell() {
    let mut w = World::new();
    let food = spawn_food(&mut w, origin());
    let eye = spawn_eye(&mut w, 5);
    w.collect_events();
    despawn_cell(&mut w, food);
    despawn_cell(&mut w, eye);
    despawn_cell(&mut w, 99);
    assert!(w.is_food(food));
    assert!(w.is_eye(eye));
    assert!(w.collect_events().is_empty());
}

#[test]
fn handles_are_never_given_twice() {
    let mut w = World::new();
    let a = spawn_food(&mut w, origin());
    despawn_food(&mut w, a);
    let b = spawn_food(&mut w, origin());
    assert_eq!(a, 0);
    assert_eq!(b, 1);
    assert!(!w.is_food(a));
    assert!(w.is_food(b));
}

#[test]
fn food_is_spawned_and_despawned_with_notifications() {
    let mut w = World::new();
    let f = spawn_food(&mut w, Point { x: 1, y: 2 });
    assert!(matches!(w.slots[f], Slot::Food(Food { position: Point { x: 1, y: 2 } })));
    assert_eq!(w.stock(), 1);
    despawn_food(&mut w, f);
    assert!(matches!(w.slots[f], Slot::Vacant));
    assert_eq!(w.stock(), 0);
    despawn_food(&mut w, f);
    despawn_food(&mut w, 17);
    assert_eq!(
        w.collect_events(),
        vec![
            Notification::FoodSpawn(FoodSpawnEvent(f)),
            Notification::FoodDespawn(FoodDespawnEvent(f)),
        ]
    );
}

#[test]
fn despawn_food_leaves_other_entities_alone() {
    let mut w = World::new();
    let eye = spawn_eye(&mut w, 5);
    let flagellum = spawn_flagellum(&mut w, 6, 7);
    w.collect_events();
    despawn_food(&mut w, eye);
    despawn_food(&mut w, flagellum);
    assert!(matches!(w.slots[eye], Slot::Eye(Eye { activation: 0, position: 5, parent: None })));
    assert!(matches!(
        w.slots[flagellum],
        Slot::Flagellum(Flagellum { activation: 0, angle: 7, position: 6, parent: None })
    ));
    assert!(w.collect_events().is_empty());
}

#[test]
fn lone_organs_are_announced() {
    let mut w = World::new();
    let flagellum = spawn_flagellum(&mut w, 6, 7);
    let eye = spawn_eye(&mut w, 5);
    assert_eq!(
        w.collect_events(),
        vec![
            Notification::FlagellumSpawn(FlagellumSpawnEvent(flagellum)),
            Notification::EyeSpawn(EyeSpawnEvent(eye)),
        ]
    );
    assert!(w.collect_events().is_empty());
}

#[test]
fn set_transform_moves_only_cells() {
    let mut w = World::new();
    let food = spawn_food(&mut w, Point { x: 1, y: 2 });
    let c: Entity = spawn_cell(
        &mut w,
        origin(),
        0,
        ONE,
        vec![(0, 0)],
        vec![0],
        identity(2),
        vec![0; 2],
        vec![0; 2],
    )
    .unwrap();
    w.set_transform(c, Point { x: 5, y: 6 }, 77);
    w.set_transform(food, Point { x: 9, y: 9 }, 1);
    w.set_transform(1000, Point { x: 9, y: 9 }, 1);
    let cell = w.cell(c).unwrap();
    assert_eq!(cell.position, Point { x: 5, y: 6 });
    assert_eq!(cell.rotation, 77);
    assert!(matches!(w.slots[food], Slot::Food(Food { position: Point { x: 1, y: 2 } })));
}

#[test]
fn soundness_is_kept_and_can_be_tested() {
    let mut w = World::new();
    assert!(w.is_sound());
    let food = spawn_food(&mut w, origin());
    let a = spawn_cell(
        &mut w,
        origin(),
        0,
        ONE,
        vec![(0, 0)],
        vec![0],
        identity(2),
        vec![0; 2],
        vec![0; 2],
    )
    .unwrap();
    spawn_eye(&mut w, 3);
    assert!(w.is_sound());
    despawn_food(&mut w, food);
    assert!(w.is_sound());
    assert!(shape_is_sound(w.cell(a).unwrap()));
    if let Slot::Cell(c) = &mut w.slots[a] {
        c.state.push(0);
    }
    assert!(!shape_is_sound(w.cell(a).unwrap()));
    assert!(!w.is_sound());
    if let Slot::Cell(c) = &mut w.slots[a] {
        c.state.pop();
    }
    assert!(w.is_sound());
    if let Slot::Eye(e) = &mut w.slots[a - 1] {
        e.parent = None;
    }
    assert!(!w.is_sound());
    if let Slot::Eye(e) = &mut w.slots[a - 1] {
        e.parent = Some(a);
        e.activation = ONE + 1;
    }
    assert!(!w.is_sound());
    if let Slot::Eye(e) = &mut w.slots[a - 1] {
        e.activation = ONE;
    }
    assert!(w.is_sound());
    w.slots[a - 2] = Slot::Vacant;
    assert!(!w.is_sound());
    despawn_cell(&mut World::new(), a);
}

#[test]
fn seeds_are_examined_before_a_cell_is_founded() {
    let mut w = World::new();
    let seed = Seed {
        position: origin(),
        rotation: 5,
        energy: 7,
        flagella_params: vec![(1, 2)],
        eye_params: vec![3],
        weights: identity(2),
        biases: vec![0, 0],
        state: vec![8, 9],
    };
    assert_eq!(examine(&w, &seed), None);
    let id = found(&mut w, seed);
    assert_eq!(id, 2);
    assert_eq!(w.cell(id).unwrap().state, vec![8, 9]);
    let short = Seed {
        position: origin(),
        rotation: 0,
        energy: 0,
        flagella_params: vec![],
        eye_params: vec![],
        weights: vec![],
        biases: vec![1],
        state: vec![],
    };
    assert_eq!(examine(&w, &short), Some(SpawnError::ControllerShape));
    let empty = Seed {
        position: origin(),
        rotation: 0,
        energy: 0,
        flagella_params: vec![],
        eye_params: vec![],
        weights: vec![],
        biases: vec![],
        state: vec![],
    };
    assert_eq!(examine(&w, &empty), None);
    assert_eq!(found(&mut w, empty), 3);
    assert!(w.is_sound());
}
