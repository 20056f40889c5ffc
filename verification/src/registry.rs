//! Creation and destruction of entities. Every operation takes effect at
//! once and appends its notification to the channel.

use vstd::prelude::*;
use crate::fixed::{all_in_range, in_range, LIMIT, ONE};
use crate::params::THINKING_PERIOD;
use crate::timer::{ThinkingTimer, Timer};
use crate::world::{
    all_pairs_in_range, cells_among, eye_events, eye_slots, flagellum_events, flagellum_slots,
    food_among, lemma_add_wf, lemma_despawn_cell_wf, lemma_same_slots_wf, lemma_spawn_cell_wf,
    lemma_vacate_food_wf, lists_before, Blueprint, Cell, CellDespawnEvent, CellSpawnEvent, Entity,
    Eye, EyeSpawnEvent, Flagellum, FlagellumSpawnEvent, Food, FoodDespawnEvent, FoodSpawnEvent,
    Notification, Point, Seed, Slot, SlotView, SpawnError, World,
};

verus! {

impl World {
    /// The invariant of the registry.
    pub open spec fn wf(&self) -> bool {
        self@.wf()
    }

    /// An empty registry.
    pub fn new() -> (w: World)
        ensures
            w@.slots.len() == 0,
            w@.events.len() == 0,
            w.wf(),
    {
        World { slots: Vec::new(), events: Vec::new() }
    }

    /// Tests the invariant of the registry. Every operation of this library
    /// keeps it; a registry whose fields were written to from outside may
    /// have lost it.
    pub fn is_sound(&self) -> (b: bool)
        ensures
            b == self.wf(),
    {
        let mut i: usize = 0;
        while i < self.slots.len()
            invariant
                i <= self.slots.len(),
                forall|j: int| 0 <= j < i ==> #[trigger] self@.slot_ok(j),
            decreases self.slots.len() - i,
        {
            let ok = match &self.slots[i] {
                Slot::Vacant => true,
                Slot::Food(_) => true,
                Slot::Flagellum(f) => 0 <= f.activation && f.activation <= ONE,
                Slot::Eye(e) => 0 <= e.activation && e.activation <= ONE,
                Slot::Cell(c) => cell_is_sound(self, i, c),
            };
            if !ok {
                assert(!self@.slot_ok(i as int));
                return false;
            }
            i = i + 1;
        }
        true
    }

    /// The number of handles given out so far.
    pub fn handles(&self) -> (n: usize)
        ensures
            n == self@.slots.len(),
    {
        self.slots.len()
    }

    /// Whether `id` refers to a live cell.
    pub fn is_cell(&self, id: Entity) -> (b: bool)
        ensures
            b == self@.is_cell(id as int),
    {
        id < self.slots.len() && matches!(self.slots[id], Slot::Cell(_))
    }

    /// Whether `id` refers to a live food item.
    pub fn is_food(&self, id: Entity) -> (b: bool)
        ensures
            b == self@.is_food(id as int),
    {
        id < self.slots.len() && matches!(self.slots[id], Slot::Food(_))
    }

    /// Whether `id` refers to a live eye.
    pub fn is_eye(&self, id: Entity) -> (b: bool)
        ensures
            b == self@.is_eye(id as int),
    {
        id < self.slots.len() && matches!(self.slots[id], Slot::Eye(_))
    }

    /// The cell behind a handle, if the handle refers to a live cell.
    pub fn cell(&self, id: Entity) -> (r: Option<&Cell>)
        ensures
            r is Some == self@.is_cell(id as int),
            r matches Some(c) ==> c@ == self@.cell(id as int),
    {
        if id < self.slots.len() {
            match &self.slots[id] {
                Slot::Cell(c) => Some(c),
                _ => None,
            }
        } else {
            None
        }
    }

    /// The number of live cells.
    pub fn population(&self) -> (n: usize)
        ensures
            n == self@.population(),
    {
        let mut n: usize = 0;
        let mut i: usize = 0;
        while i < self.slots.len()
            invariant
                i <= self.slots.len(),
                n <= i,
                n == cells_among(self@.slots.take(i as int)),
            decreases self.slots.len() - i,
        {
            proof {
                assert(self@.slots.take(i + 1).drop_last() =~= self@.slots.take(i as int));
            }
            if matches!(self.slots[i], Slot::Cell(_)) {
                n = n + 1;
            }
            i = i + 1;
        }
        proof {
            assert(self@.slots.take(i as int) =~= self@.slots);
        }
        n
    }

    /// The number of live food items.
    pub fn stock(&self) -> (n: usize)
        ensures
            n == self@.stock(),
    {
        let mut n: usize = 0;
        let mut i: usize = 0;
        while i < self.slots.len()
            invariant
                i <= self.slots.len(),
                n <= i,
                n == food_among(self@.slots.take(i as int)),
            decreases self.slots.len() - i,
        {
            proof {
                assert(self@.slots.take(i + 1).drop_last() =~= self@.slots.take(i as int));
            }
            if matches!(self.slots[i], Slot::Food(_)) {
                n = n + 1;
            }
            i = i + 1;
        }
        proof {
            assert(self@.slots.take(i as int) =~= self@.slots);
        }
        n
    }

    /// Hands out the notifications sent since the last collection, oldest
    /// first, and empties the channel.
    pub fn collect_events(&mut self) -> (sent: Vec<Notification>)
        ensures
            sent@ == old(self)@.events,
            final(self)@.slots == old(self)@.slots,
            final(self)@.events.len() == 0,
    {
        let mut sent: Vec<Notification> = Vec::new();
        std::mem::swap(&mut self.events, &mut sent);
        sent
    }

    /// Records where the motion of a cell has taken it. A handle that refers
    /// to no live cell is left alone.
    pub fn set_transform(&mut self, id: Entity, position: Point, rotation: i64)
        requires
            old(self).wf(),
        ensures
            final(self).wf(),
            final(self)@ == old(self)@.moved(id, position, rotation),
    {
        if id < self.slots.len() {
            match &mut self.slots[id] {
                Slot::Cell(c) => {
                    c.position = position;
                    c.rotation = rotation;
                },
                _ => {},
            }
        }
        proof {
            assert(self@.slots =~= old(self)@.moved(id, position, rotation).slots);
            crate::world::lemma_moved_wf(old(self)@, id, position, rotation);
        }
    }
}

/// Tests the structural invariant of a cell.
pub fn shape_is_sound(c: &Cell) -> (b: bool)
    ensures
        b == c@.shape_ok(),
{
    let nl = c.flagella.len();
    let ne = c.eyes.len();
    let n = c.state.len();
    assert((n as u128) * (n as u128) <= 0xffff_ffff_ffff_ffff_ffff_ffff_ffff_ffff)
        by (nonlinear_arith)
        requires
            0 <= n <= 0xffff_ffff_ffff_ffff,
    ;
    if nl != c.flagella_params.len() || ne != c.eye_params.len() || nl != ne || nl > n || ne > n
        - nl || c.biases.len() != n || (c.weights.len() as u128) != (n as u128) * (n as u128) {
        return false;
    }
    pairs_confined(&c.flagella_params) && confined(&c.eye_params) && confined(&c.weights)
        && confined(&c.biases) && confined(&c.state)
}

/// Whether a cell that is held in the slot `i` meets the invariant of its slot.
fn cell_is_sound(world: &World, i: usize, c: &Cell) -> (b: bool)
    requires
        i < world@.slots.len(),
        world@.slots[i as int] == SlotView::Cell(c@),
    ensures
        b == world@.slot_ok(i as int),
{
    if !shape_is_sound(c) {
        return false;
    }
    let nl = c.flagella.len();
    let ne = c.eyes.len();
    let mut k: usize = 0;
    while k < nl
        invariant
            k <= nl,
            nl == c.flagella@.len(),
            i < world@.slots.len(),
            world@.slots[i as int] == SlotView::Cell(c@),
            forall|m: int|
                0 <= m < k ==> world@.owns_flagellum(i as int, #[trigger] c.flagella@[m] as int),
        decreases nl - k,
    {
        let h = c.flagella[k];
        let owned = h < world.slots.len() && match &world.slots[h] {
            Slot::Flagellum(f) => match f.parent {
                Some(p) => p == i,
                None => false,
            },
            _ => false,
        };
        if !owned {
            assert(!world@.owns_flagellum(i as int, c@.flagella[k as int] as int));
            return false;
        }
        k = k + 1;
    }
    let mut k: usize = 0;
    while k < ne
        invariant
            k <= ne,
            ne == c.eyes@.len(),
            i < world@.slots.len(),
            world@.slots[i as int] == SlotView::Cell(c@),
            c@.shape_ok(),
            forall|m: int|
                0 <= m < c.flagella@.len() ==> world@.owns_flagellum(
                    i as int,
                    #[trigger] c.flagella@[m] as int,
                ),
            forall|m: int| 0 <= m < k ==> world@.owns_eye(i as int, #[trigger] c.eyes@[m] as int),
        decreases ne - k,
    {
        let h = c.eyes[k];
        let owned = h < world.slots.len() && match &world.slots[h] {
            Slot::Eye(e) => match e.parent {
                Some(p) => p == i,
                None => false,
            },
            _ => false,
        };
        if !owned {
            assert(!world@.owns_eye(i as int, c@.eyes[k as int] as int));
            return false;
        }
        k = k + 1;
    }
    true
}

/// Whether every element is a confined scalar.
pub fn confined(v: &Vec<i64>) -> (b: bool)
    ensures
        b == all_in_range(v@),
{
    let mut i: usize = 0;
    while i < v.len()
        invariant
            i <= v.len(),
            forall|j: int| 0 <= j < i ==> in_range(#[trigger] v@[j] as int),
        decreases v.len() - i,
    {
        if v[i] < -LIMIT || v[i] > LIMIT {
            return false;
        }
        i = i + 1;
    }
    true
}

/// Whether every pair holds confined scalars.
pub fn pairs_confined(v: &Vec<(i64, i64)>) -> (b: bool)
    ensures
        b == all_pairs_in_range(v@),
{
    let mut i: usize = 0;
    while i < v.len()
        invariant
            i <= v.len(),
            forall|j: int|
                0 <= j < i ==> in_range((#[trigger] v@[j]).0 as int) && in_range(v@[j].1 as int),
        decreases v.len() - i,
    {
        let p = v[i];
        if p.0 < -LIMIT || p.0 > LIMIT || p.1 < -LIMIT || p.1 > LIMIT {
            return false;
        }
        i = i + 1;
    }
    true
}

/// Creates a food item at `position`.
pub fn spawn_food(world: &mut World, position: Point) -> (food: Entity)
    requires
        old(world).wf(),
    ensures
        final(world).wf(),
        final(world)@ == old(world)@.spawn_food(position),
        food == old(world)@.slots.len(),
{
    let food = world.slots.len();
    world.slots.push(Slot::Food(Food { position }));
    world.events.push(Notification::FoodSpawn(FoodSpawnEvent(food)));
    proof {
        assert(world@.slots =~= old(world)@.spawn_food(position).slots);
        lemma_add_wf(old(world)@, SlotView::Food(Food { position }));
        lemma_same_slots_wf(
            old(world)@.add(SlotView::Food(Food { position })),
            old(world)@.spawn_food(position),
        );
    }
    food
}

/// Removes the food item `food_entity`. A handle that refers to no live food
/// item is left alone, and nothing is announced.
pub fn despawn_food(world: &mut World, food_entity: Entity)
    requires
        old(world).wf(),
    ensures
        final(world).wf(),
        final(world)@ == old(world)@.despawn_food(food_entity),
{
    if world.is_food(food_entity) {
        world.slots[food_entity] = Slot::Vacant;
        world.events.push(Notification::FoodDespawn(FoodDespawnEvent(food_entity)));
        proof {
            assert(world@.slots =~= old(world)@.despawn_food(food_entity).slots);
            lemma_vacate_food_wf(old(world)@, food_entity as int);
            lemma_same_slots_wf(
                old(world)@.put(food_entity as int, SlotView::Vacant),
                old(world)@.despawn_food(food_entity),
            );
        }
    }
}

fn push_flagellum(world: &mut World, position: i64, angle: i64, parent: Option<Entity>) -> (id:
    Entity)
    ensures
        final(world)@ == old(world)@.spawn_flagellum(position, angle, parent),
        id == old(world)@.slots.len(),
{
    let id = world.slots.len();
    world.slots.push(Slot::Flagellum(Flagellum { activation: 0, angle, position, parent }));
    world.events.push(Notification::FlagellumSpawn(FlagellumSpawnEvent(id)));
    proof {
        assert(world@.slots =~= old(world)@.spawn_flagellum(position, angle, parent).slots);
    }
    id
}

fn push_eye(world: &mut World, position: i64, parent: Option<Entity>) -> (id: Entity)
    ensures
        final(world)@ == old(world)@.spawn_eye(position, parent),
        id == old(world)@.slots.len(),
{
    let id = world.slots.len();
    world.slots.push(Slot::Eye(Eye { activation: 0, position, parent }));
    world.events.push(Notification::EyeSpawn(EyeSpawnEvent(id)));
    proof {
        assert(world@.slots =~= old(world)@.spawn_eye(position, parent).slots);
    }
    id
}

/// Creates a flagellum that belongs to no cell, at rest, at the angular
/// position `position` and thrusting at `angle` to it.
pub fn spawn_flagellum(world: &mut World, position: i64, angle: i64) -> (flagellum: Entity)
    requires
        old(world).wf(),
    ensures
        final(world).wf(),
        final(world)@ == old(world)@.spawn_flagellum(position, angle, None),
        flagellum == old(world)@.slots.len(),
{
    proof {
        let s = SlotView::Flagellum(Flagellum { activation: 0, angle, position, parent: None });
        lemma_add_wf(old(world)@, s);
        lemma_same_slots_wf(
            old(world)@.add(s),
            old(world)@.spawn_flagellum(position, angle, None),
        );
    }
    push_flagellum(world, position, angle, None)
}

/// Creates an eye that belongs to no cell and sees nothing yet, at the
/// angular position `position`.
pub fn spawn_eye(world: &mut World, position: i64) -> (eye: Entity)
    requires
        old(world).wf(),
    ensures
        final(world).wf(),
        final(world)@ == old(world)@.spawn_eye(position, None),
        eye == old(world)@.slots.len(),
{
    proof {
        let s = SlotView::Eye(Eye { activation: 0, position, parent: None });
        lemma_add_wf(old(world)@, s);
        lemma_same_slots_wf(old(world)@.add(s), old(world)@.spawn_eye(position, None));
    }
    push_eye(world, position, None)
}

/// The handles `first, first + 1, ..` of `count` entities created in a row.
fn handle_run(first: usize, count: usize) -> (v: Vec<Entity>)
    requires
        first + count <= usize::MAX,
    ensures
        v@ == Seq::new(count as nat, |k: int| (first + k) as usize),
{
    let mut v: Vec<Entity> = Vec::new();
    let mut k: usize = 0;
    while k < count
        invariant
            k <= count,
            first + count <= usize::MAX,
            v@ == Seq::new(k as nat, |j: int| (first + j) as usize),
        decreases count - k,
    {
        v.push(first + k);
        k = k + 1;
        assert(v@ =~= Seq::new(k as nat, |j: int| (first + j) as usize));
    }
    v
}

/// Tests what a cell would be made from against the structural invariant of
/// cells.
pub fn examine(world: &World, seed: &Seed) -> (r: Option<SpawnError>)
    ensures
        r == seed@.verdict(world@.slots.len()),
{
    let nl = seed.flagella_params.len();
    let ne = seed.eye_params.len();
    let n = seed.state.len();
    if nl != ne {
        return Some(SpawnError::OrganCountMismatch);
    }
    assert((n as u128) * (n as u128) <= 0xffff_ffff_ffff_ffff_ffff_ffff_ffff_ffff)
        by (nonlinear_arith)
        requires
            0 <= n <= 0xffff_ffff_ffff_ffff,
    ;
    if seed.biases.len() != n || (seed.weights.len() as u128) != (n as u128) * (n as u128) {
        return Some(SpawnError::ControllerShape);
    }
    if nl > n || ne > n - nl {
        return Some(SpawnError::ControllerTooSmall);
    }
    if !(pairs_confined(&seed.flagella_params) && confined(&seed.eye_params) && confined(
        &seed.weights,
    ) && confined(&seed.biases) && confined(&seed.state)) {
        return Some(SpawnError::ValueOutOfRange);
    }
    if nl + ne >= usize::MAX - world.slots.len() {
        return Some(SpawnError::RegistryFull);
    }
    None
}

/// Creates a cell with its organs, which become its children, and announces
/// each organ and then the cell. Arguments that break the structural
/// invariant of cells are rejected and leave the registry as it was.
pub fn spawn_cell(
    world: &mut World,
    position: Point,
    rotation: i64,
    energy: i64,
    flagella_params: Vec<(i64, i64)>,
    eye_params: Vec<i64>,
    weights: Vec<i64>,
    biases: Vec<i64>,
    state: Vec<i64>,
) -> (r: Result<Entity, SpawnError>)
    requires
        old(world).wf(),
    ensures
        final(world).wf(),
        ({
            let b = Blueprint {
                position,
                rotation,
                energy,
                flagella_params: flagella_params@,
                eye_params: eye_params@,
                weights: weights@,
                biases: biases@,
                state: state@,
            };
            match b.verdict(old(world)@.slots.len()) {
                None => r == Ok::<Entity, SpawnError>(old(world)@.next_cell(b)) && final(world)@
                    == old(world)@.spawn_cell(b),
                Some(e) => r == Err::<Entity, SpawnError>(e) && final(world)@ == old(world)@,
            }
        }),
{
    let seed = Seed {
        position,
        rotation,
        energy,
        flagella_params,
        eye_params,
        weights,
        biases,
        state,
    };
    match examine(world, &seed) {
        Some(e) => Err(e),
        None => Ok(found(world, seed)),
    }
}

/// Creates a cell from a seed that is known to be sound.
pub fn found(world: &mut World, seed: Seed) -> (id: Entity)
    requires
        old(world).wf(),
        seed@.verdict(old(world)@.slots.len()) is None,
    ensures
        final(world).wf(),
        id == old(world)@.next_cell(seed@),
        final(world)@ == old(world)@.spawn_cell(seed@),
{
    let ghost w0 = world@;
    let ghost b = seed@;
    let nl = seed.flagella_params.len();
    let ne = seed.eye_params.len();
    let base = world.slots.len();
    let id = base + nl + ne;
    let mut k: usize = 0;
    while k < nl
        invariant
            k <= nl,
            nl == seed.flagella_params@.len(),
            world@.slots == w0.slots + flagellum_slots(seed.flagella_params@, id, k as nat),
            world@.events == w0.events + flagellum_events(base as nat, k as nat),
            base == w0.slots.len(),
            base + nl <= usize::MAX,
        decreases nl - k,
    {
        let p = seed.flagella_params[k];
        push_flagellum(world, p.0, p.1, Some(id));
        k = k + 1;
        assert(world@.slots =~= w0.slots + flagellum_slots(seed.flagella_params@, id, k as nat));
        assert(world@.events =~= w0.events + flagellum_events(base as nat, k as nat));
    }
    let ghost w1 = world@;
    let mut k: usize = 0;
    while k < ne
        invariant
            k <= ne,
            ne == seed.eye_params@.len(),
            world@.slots == w1.slots + eye_slots(seed.eye_params@, id, k as nat),
            world@.events == w1.events + eye_events((base + nl) as nat, k as nat),
            base + nl == w1.slots.len(),
            base + nl + ne <= usize::MAX,
        decreases ne - k,
    {
        push_eye(world, seed.eye_params[k], Some(id));
        k = k + 1;
        assert(world@.slots =~= w1.slots + eye_slots(seed.eye_params@, id, k as nat));
        assert(world@.events =~= w1.events + eye_events((base + nl) as nat, k as nat));
    }
    let cell = Cell {
        flagella: handle_run(base, nl),
        eyes: handle_run(base + nl, ne),
        energy: seed.energy,
        flagella_params: seed.flagella_params,
        eye_params: seed.eye_params,
        weights: seed.weights,
        biases: seed.biases,
        state: seed.state,
        position: seed.position,
        rotation: seed.rotation,
        timer: ThinkingTimer(Timer::new(THINKING_PERIOD)),
    };
    assert(cell@ == w0.newborn(b));
    world.slots.push(Slot::Cell(cell));
    world.events.push(Notification::CellSpawn(CellSpawnEvent(id)));
    proof {
        assert(world@.slots =~= w0.spawn_cell(b).slots);
        assert(world@.events =~= w0.spawn_cell(b).events);
        lemma_spawn_cell_wf(w0, b);
    }
    id
}

/// Removes a cell together with its organs and announces that the cell is
/// gone. A handle that refers to no live cell is left alone.
pub fn despawn_cell(world: &mut World, cell_entity: Entity)
    requires
        old(world).wf(),
    ensures
        final(world).wf(),
        final(world)@ == old(world)@.despawn_cell(cell_entity),
{
    if !world.is_cell(cell_entity) {
        return ;
    }
    let ghost w0 = world@;
    let ghost c0 = w0.cell(cell_entity as int);
    let mut taken = Slot::Vacant;
    std::mem::swap(&mut world.slots[cell_entity], &mut taken);
    if let Slot::Cell(c) = taken {
        assert(c@ == c0);
        assert(w0.slot_ok(cell_entity as int));
        let mut k: usize = 0;
        while k < c.flagella.len()
            invariant
                k <= c.flagella.len(),
                c@ == c0,
                w0.wf(),
                w0.slot(cell_entity as int) == SlotView::Cell(c0),
                w0.slot_ok(cell_entity as int),
                world@.events == w0.events,
                world@.slots.len() == w0.slots.len(),
                forall|j: int|
                    0 <= j < w0.slots.len() ==> #[trigger] world@.slots[j] == if j == cell_entity
                        || lists_before(c0.flagella, k as int, j) {
                        SlotView::Vacant
                    } else {
                        w0.slots[j]
                    },
            decreases c.flagella.len() - k,
        {
            let h = c.flagella[k];
            assert(w0.owns_flagellum(cell_entity as int, c0.flagella[k as int] as int));
            let ghost before = world@;
            world.slots[h] = Slot::Vacant;
            k = k + 1;
            assert forall|j: int| 0 <= j < w0.slots.len() implies #[trigger] world@.slots[j]
                == if j == cell_entity || lists_before(c0.flagella, k as int, j) {
                SlotView::Vacant
            } else {
                w0.slots[j]
            } by {
                assert(before.slots[j] == if j == cell_entity || lists_before(
                    c0.flagella,
                    k - 1,
                    j,
                ) {
                    SlotView::Vacant
                } else {
                    w0.slots[j]
                });
                if j == h {
                    assert(c0.flagella[k - 1] == j);
                }
            }
        }
        let mut k: usize = 0;
        while k < c.eyes.len()
            invariant
                k <= c.eyes.len(),
                c@ == c0,
                w0.wf(),
                w0.slot(cell_entity as int) == SlotView::Cell(c0),
                w0.slot_ok(cell_entity as int),
                world@.events == w0.events,
                world@.slots.len() == w0.slots.len(),
                forall|j: int|
                    0 <= j < w0.slots.len() ==> #[trigger] world@.slots[j] == if j == cell_entity
                        || lists_before(c0.flagella, c0.flagella.len() as int, j) || lists_before(
                        c0.eyes,
                        k as int,
                        j,
                    ) {
                        SlotView::Vacant
                    } else {
                        w0.slots[j]
                    },
            decreases c.eyes.len() - k,
        {
            let h = c.eyes[k];
            assert(w0.owns_eye(cell_entity as int, c0.eyes[k as int] as int));
            let ghost before = world@;
            world.slots[h] = Slot::Vacant;
            k = k + 1;
            assert forall|j: int| 0 <= j < w0.slots.len() implies #[trigger] world@.slots[j]
                == if j == cell_entity || lists_before(c0.flagella, c0.flagella.len() as int, j)
                || lists_before(c0.eyes, k as int, j) {
                SlotView::Vacant
            } else {
                w0.slots[j]
            } by {
                assert(before.slots[j] == if j == cell_entity || lists_before(
                    c0.flagella,
                    c0.flagella.len() as int,
                    j,
                ) || lists_before(c0.eyes, k - 1, j) {
                    SlotView::Vacant
                } else {
                    w0.slots[j]
                });
                if j == h {
                    assert(c0.eyes[k - 1] == j);
                }
            }
        }
        world.events.push(Notification::CellDespawn(CellDespawnEvent(cell_entity)));
        proof {
            assert(world@.slots =~= w0.despawn_cell(cell_entity).slots);
            lemma_despawn_cell_wf(w0, cell_entity);
        }
    }
}

} // verus!
