//! The food economy: food trickles in on a timer, and a cell eats every food
//! item that its body touches.

use vstd::prelude::*;
use crate::fixed::{scale, scaled};
use crate::params::{ENERGY_PER_FOOD, FIXED_DELTA, TRICKLE_SIGMA};
use crate::registry::{despawn_food, spawn_food};
use crate::samples::{lemma_rest_rest, lemma_rest_sample, rest, sample_at, Samples};
use crate::timer::FoodTimer;
use crate::world::{
    lemma_add_wf, lemma_evolves_wf, lemma_same_slots_wf, slot_evolves, CellView, Entity, Food,
    Point, Slot, SlotView, World, WorldView,
};

verus! {

/// What the spatial index reports for one cell: the entities that overlap its
/// body.
#[derive(Debug)]
pub struct Contact {
    pub cell: Entity,
    pub overlaps: Vec<Entity>,
}

/// The model of a contact.
pub struct ContactView {
    pub cell: Entity,
    pub overlaps: Seq<Entity>,
}

impl View for Contact {
    type V = ContactView;

    open spec fn view(&self) -> ContactView {
        ContactView { cell: self.cell, overlaps: self.overlaps@ }
    }
}

/// The models of a list of contacts.
pub open spec fn contacts_view(v: Seq<Contact>) -> Seq<ContactView> {
    Seq::new(v.len(), |i: int| v[i]@)
}

/// The energy of a cell that held `energy` and ate one food item. Energy
/// stops at the largest value that can be written down.
pub open spec fn credited(energy: i64) -> i64 {
    if energy + ENERGY_PER_FOOD > i64::MAX {
        i64::MAX
    } else {
        (energy + ENERGY_PER_FOOD) as i64
    }
}

/// The registry after the cell `cell` touched the entity `x`: if both are
/// alive and `x` is food, the food is removed and the cell is credited.
pub open spec fn bite(w: WorldView, cell: int, x: Entity) -> WorldView {
    match w.slot(cell) {
        SlotView::Cell(c) => if w.is_food(x as int) {
            w.despawn_food(x).put(
                cell,
                SlotView::Cell(CellView { energy: credited(c.energy), ..c }),
            )
        } else {
            w
        },
        _ => w,
    }
}

/// The registry after the cell `cell` touched the first `count` of
/// `overlaps`, in order.
pub open spec fn meal(w: WorldView, cell: int, overlaps: Seq<Entity>, count: nat) -> WorldView
    decreases count,
{
    if count == 0 {
        w
    } else {
        bite(meal(w, cell, overlaps, (count - 1) as nat), cell, overlaps[count - 1])
    }
}

/// The registry after the first `count` contacts were dealt with, in order.
pub open spec fn feeding_upto(w: WorldView, contacts: Seq<ContactView>, count: nat) -> WorldView
    decreases count,
{
    if count == 0 {
        w
    } else {
        let c = contacts[count - 1];
        meal(feeding_upto(w, contacts, (count - 1) as nat), c.cell as int, c.overlaps, c.overlaps.len())
    }
}

/// The registry after the feeding stage.
pub open spec fn feeding(w: WorldView, contacts: Seq<ContactView>) -> WorldView {
    feeding_upto(w, contacts, contacts.len())
}

/// The place of the `k`-th food item that is scattered from `samples`.
pub open spec fn site(samples: Seq<i64>, k: int, sigma: i64) -> Point {
    Point {
        x: scaled(sample_at(samples, 2 * k) as int, sigma as int) as i64,
        y: scaled(sample_at(samples, 2 * k + 1) as int, sigma as int) as i64,
    }
}

/// The registry once `count` food items were scattered, each coordinate a
/// sample scaled by `sigma`.
pub open spec fn scattered(w: WorldView, samples: Seq<i64>, sigma: i64, count: nat) -> WorldView
    decreases count,
{
    if count == 0 {
        w
    } else {
        scattered(w, samples, sigma, (count - 1) as nat).spawn_food(site(samples, count - 1, sigma))
    }
}

/// How many food items are due when the food timer is given one fixed tick.
pub open spec fn food_due(timer: FoodTimer) -> nat {
    timer.0.ticked(FIXED_DELTA as u64).times_finished_this_tick as nat
}

/// A bite keeps the registry sound.
pub proof fn lemma_bite_wf(w: WorldView, cell: int, x: Entity)
    requires
        w.wf(),
    ensures
        bite(w, cell, x).wf(),
        bite(w, cell, x).slots.len() == w.slots.len(),
{
    let r = bite(w, cell, x);
    if 0 <= cell < w.slots.len() {
        assert(w.slot_ok(cell));
    }
    assert forall|j: int| 0 <= j < w.slots.len() implies slot_evolves(
        #[trigger] w.slots[j],
        r.slots[j],
    ) by {}
    lemma_evolves_wf(w, r);
}

/// A meal keeps the registry sound.
pub proof fn lemma_meal_wf(w: WorldView, cell: int, overlaps: Seq<Entity>, count: nat)
    requires
        w.wf(),
    ensures
        meal(w, cell, overlaps, count).wf(),
        meal(w, cell, overlaps, count).slots.len() == w.slots.len(),
    decreases count,
{
    if count > 0 {
        lemma_meal_wf(w, cell, overlaps, (count - 1) as nat);
        lemma_bite_wf(meal(w, cell, overlaps, (count - 1) as nat), cell, overlaps[count - 1]);
    }
}

/// The feeding stage keeps the registry sound.
pub proof fn lemma_feeding_upto_wf(w: WorldView, contacts: Seq<ContactView>, count: nat)
    requires
        w.wf(),
    ensures
        feeding_upto(w, contacts, count).wf(),
        feeding_upto(w, contacts, count).slots.len() == w.slots.len(),
    decreases count,
{
    if count > 0 {
        lemma_feeding_upto_wf(w, contacts, (count - 1) as nat);
        let c = contacts[count - 1];
        lemma_meal_wf(
            feeding_upto(w, contacts, (count - 1) as nat),
            c.cell as int,
            c.overlaps,
            c.overlaps.len(),
        );
    }
}

/// Scattering food keeps the registry sound and adds one slot for each item.
pub proof fn lemma_scattered_wf(w: WorldView, samples: Seq<i64>, sigma: i64, count: nat)
    requires
        w.wf(),
    ensures
        scattered(w, samples, sigma, count).wf(),
        scattered(w, samples, sigma, count).slots.len() == w.slots.len() + count,
    decreases count,
{
    if count > 0 {
        let p = scattered(w, samples, sigma, (count - 1) as nat);
        lemma_scattered_wf(w, samples, sigma, (count - 1) as nat);
        let s = SlotView::Food(Food { position: site(samples, count - 1, sigma) });
        lemma_add_wf(p, s);
        lemma_same_slots_wf(p.add(s), p.spawn_food(site(samples, count - 1, sigma)));
    }
}

/// Lets one cell eat what its body touches. Each overlap that refers to a
/// live food item removes that item and credits the cell; any other overlap is
/// passed over, and so is the whole contact if `cell_entity` refers to no
/// live cell.
pub fn feed(world: &mut World, cell_entity: Entity, overlaps: &Vec<Entity>)
    requires
        old(world).wf(),
    ensures
        final(world).wf(),
        final(world)@ == meal(old(world)@, cell_entity as int, overlaps@, overlaps@.len()),
{
    let ghost w0 = world@;
    let mut k: usize = 0;
    while k < overlaps.len()
        invariant
            k <= overlaps.len(),
            world.wf(),
            world@ == meal(w0, cell_entity as int, overlaps@, k as nat),
        decreases overlaps.len() - k,
    {
        let x = overlaps[k];
        let ghost before = world@;
        if world.is_cell(cell_entity) && world.is_food(x) {
            despawn_food(world, x);
            let ghost mid = world@;
            proof {
                assert(mid == before.despawn_food(x));
                assert(mid.slots.len() == before.slots.len());
                assert(world.slots@.len() == mid.slots.len());
                assert(mid.slots[cell_entity as int] == before.slots[cell_entity as int]);
            }
            match &mut world.slots[cell_entity] {
                Slot::Cell(c) => {
                    c.energy = if c.energy > i64::MAX - ENERGY_PER_FOOD {
                        i64::MAX
                    } else {
                        c.energy + ENERGY_PER_FOOD
                    };
                },
                _ => {},
            }
            proof {
                let r = bite(before, cell_entity as int, x);
                assert forall|j: int| 0 <= j < mid.slots.len() implies world@.slots[j]
                    == r.slots[j] by {
                    if j != cell_entity {
                        assert(world@.slots[j] == mid.slots[j]);
                    }
                }
                assert(world@.slots =~= r.slots);
                lemma_bite_wf(before, cell_entity as int, x);
            }
        }
        k = k + 1;
    }
}

/// The feeding stage: deals with the contacts in order. A food item that
/// several contacts name is eaten by the first cell that reaches it.
pub fn cell_food_intersection(world: &mut World, contacts: &Vec<Contact>)
    requires
        old(world).wf(),
    ensures
        final(world).wf(),
        final(world)@ == feeding(old(world)@, contacts_view(contacts@)),
{
    let ghost w0 = world@;
    let ghost views = contacts_view(contacts@);
    let mut k: usize = 0;
    while k < contacts.len()
        invariant
            k <= contacts.len(),
            views == contacts_view(contacts@),
            world.wf(),
            world@ == feeding_upto(w0, views, k as nat),
        decreases contacts.len() - k,
    {
        let c = &contacts[k];
        assert(views[k as int] == c@);
        feed(world, c.cell, &c.overlaps);
        k = k + 1;
    }
}

/// Scatters `count` food items, drawing two samples for each.
pub fn scatter(world: &mut World, samples: &mut Samples, sigma: i64, count: u64)
    requires
        old(world).wf(),
    ensures
        final(world).wf(),
        final(world)@ == scattered(old(world)@, old(samples)@, sigma, count as nat),
        final(samples)@ == rest(old(samples)@, 2 * count),
{
    let ghost w0 = world@;
    let ghost s0 = samples@;
    let mut k: u64 = 0;
    assert(samples@ =~= rest(s0, 0));
    while k < count
        invariant
            k <= count,
            world.wf(),
            world@ == scattered(w0, s0, sigma, k as nat),
            samples@ == rest(s0, 2 * k),
        decreases count - k,
    {
        let a = samples.draw();
        let b = samples.draw();
        proof {
            lemma_rest_sample(s0, 2 * k, 0);
            lemma_rest_rest(s0, 2 * k, 1);
            lemma_rest_sample(s0, 2 * k + 1, 0);
            lemma_rest_rest(s0, 2 * k + 1, 1);
        }
        let position = Point { x: scale(a, sigma), y: scale(b, sigma) };
        assert(position == site(s0, k as int, sigma));
        spawn_food(world, position);
        k = k + 1;
    }
}

/// How many food items the next fixed tick lets in, for which the trickle
/// draws twice as many samples.
pub fn pending_food(timer: &FoodTimer) -> (due: u64)
    ensures
        due == food_due(*timer),
{
    let mut ahead = timer.0;
    ahead.tick(FIXED_DELTA as u64);
    ahead.times_finished_this_tick()
}

/// The food trickle: gives the food timer one fixed tick and scatters one
/// food item for each period that ended during it.
pub fn food_spawning(world: &mut World, timer: &mut FoodTimer, samples: &mut Samples)
    requires
        old(world).wf(),
    ensures
        final(world).wf(),
        final(timer).0 == old(timer).0.ticked(FIXED_DELTA as u64),
        final(world)@ == scattered(
            old(world)@,
            old(samples)@,
            TRICKLE_SIGMA,
            food_due(*old(timer)),
        ),
        final(samples)@ == rest(old(samples)@, 2 * (food_due(*old(timer)) as int)),
{
    timer.0.tick(FIXED_DELTA as u64);
    let due = timer.0.times_finished_this_tick();
    scatter(world, samples, TRICKLE_SIGMA, due);
}

} // verus!
