//! The order of the simulation: what is set up at the start, what one fixed
//! tick does, and the bookkeeping of the variable-rate step.

use vstd::prelude::*;
use crate::feeding::{
    cell_food_intersection, contacts_view, feeding, food_due, food_spawning, scatter, scattered,
    site, Contact, ContactView,
};
use crate::fixed::{all_in_range, scale, scaled};
use crate::lifecycle::{aging, decrement_energy, dividing, split_cells};
use crate::params::{
    BIRTH_ENERGY, FIXED_DELTA, FOOD_PERIOD, FOUNDERS, FOUNDER_SIGMA, FOUNDER_UNITS, INITIAL_FOOD,
    REPORT_PERIOD, SECOND, SEEDING_SIGMA, TRICKLE_SIGMA,
};
use crate::registry::found;
use crate::samples::{lemma_rest_rest, lemma_rest_sample, rest, sample_at, Samples};
use crate::sensing::{eye_sensing, sensed, sightings_view, Sighting, SightingView};
use crate::thinking::{cell_thinking, thinking};
use crate::timer::{DebugTimer, FoodTimer, TimeCounter, Timer};
use crate::world::{all_pairs_in_range, Blueprint, Point, Seed, World, WorldView};

verus! {

/// What the simulation keeps besides the registry.
#[derive(Clone, Copy, Debug, PartialEq, Eq)]
pub struct Resources {
    pub food_timer: FoodTimer,
    pub debug_timer: DebugTimer,
    pub time_counter: TimeCounter,
}

/// A report on the population.
#[derive(Clone, Copy, Debug, PartialEq, Eq)]
pub struct Census {
    /// Steps per second at the pace of the last one, rounded.
    pub rate: u64,
    pub cell_count: usize,
    pub food_count: usize,
}

/// The layout that every founder has for its flagella.
pub open spec fn founder_flagella() -> Seq<(i64, i64)> {
    seq![(1_570_796i64, -785_398i64), (0i64, 0i64), (-1_570_796i64, 785_398i64)]
}

/// The layout that every founder has for its eyes.
pub open spec fn founder_eyes() -> Seq<i64> {
    seq![2_722_714i64, 3_141_593i64, 3_560_472i64]
}

/// `count` values, each a sample scaled by `sigma`.
pub open spec fn drawn(samples: Seq<i64>, count: nat, sigma: i64) -> Seq<i64> {
    Seq::new(count, |k: int| scaled(sample_at(samples, k) as int, sigma as int) as i64)
}

/// The number of samples that one founder takes.
pub open spec fn founder_samples() -> int {
    2 + FOUNDER_UNITS * FOUNDER_UNITS + FOUNDER_UNITS + FOUNDER_UNITS
}

/// What a founder is made from: its place, then its weights, biases and
/// state, all drawn from `samples` in this order.
pub open spec fn founder(samples: Seq<i64>) -> Blueprint {
    let units = FOUNDER_UNITS as int;
    Blueprint {
        position: site(samples, 0, SEEDING_SIGMA),
        rotation: 0,
        energy: BIRTH_ENERGY,
        flagella_params: founder_flagella(),
        eye_params: founder_eyes(),
        weights: drawn(rest(samples, 2), (units * units) as nat, FOUNDER_SIGMA),
        biases: drawn(rest(samples, 2 + units * units), units as nat, FOUNDER_SIGMA),
        state: drawn(rest(samples, 2 + units * units + units), units as nat, FOUNDER_SIGMA),
    }
}

/// The registry once a founder made from `samples` was created, if the
/// registry can number it.
pub open spec fn founded(w: WorldView, samples: Seq<i64>) -> WorldView {
    if founder(samples).verdict(w.slots.len()) is None {
        w.spawn_cell(founder(samples))
    } else {
        w
    }
}

/// The registry once `count` founders were created.
pub open spec fn founded_upto(w: WorldView, samples: Seq<i64>, count: nat) -> WorldView
    decreases count,
{
    if count == 0 {
        w
    } else {
        founded(
            founded_upto(w, samples, (count - 1) as nat),
            rest(samples, (count - 1) * founder_samples()),
        )
    }
}

/// The registry at the start of a simulation: the founders, then the first
/// food.
pub open spec fn settled_world(w: WorldView, samples: Seq<i64>) -> WorldView {
    scattered(
        founded_upto(w, samples, FOUNDERS as nat),
        rest(samples, FOUNDERS * founder_samples()),
        SEEDING_SIGMA,
        INITIAL_FOOD as nat,
    )
}

/// The registry and the samples after one fixed tick: food trickles in, the
/// cells eat, the eyes sense, the controllers think, every cell pays for the
/// tick, and the cells that can afford it divide.
pub open spec fn ticked(
    w: WorldView,
    timer: FoodTimer,
    contacts: Seq<ContactView>,
    sightings: Seq<SightingView>,
    samples: Seq<i64>,
) -> (WorldView, Seq<i64>) {
    let due = food_due(timer);
    let fed = feeding(scattered(w, samples, TRICKLE_SIGMA, due), contacts);
    dividing(aging(thinking(sensed(fed, sightings))), rest(samples, 2 * (due as int)))
}

/// Steps per second at the pace of a step that took `delta` microseconds,
/// rounded to the nearest whole number.
pub open spec fn rate(delta: u64) -> u64 {
    if delta == 0 {
        u64::MAX
    } else {
        ((2 * SECOND + delta) / (2 * delta)) as u64
    }
}

/// `a`, or the largest 64-bit count if `a` is larger.
pub open spec fn min_u64(a: int) -> u64 {
    if a > u64::MAX {
        u64::MAX
    } else {
        a as u64
    }
}

/// The time counter after a fixed tick, and the number of fixed ticks that it
/// reports if a second of the variable-rate step's time has gone by.
pub open spec fn fixed_counted(c: TimeCounter) -> (TimeCounter, Option<u64>) {
    let ticks = min_u64(c.1 + 1);
    if c.0 >= SECOND {
        (TimeCounter((c.0 - SECOND) as u64, 0), Some(ticks))
    } else {
        (TimeCounter(c.0, ticks), None)
    }
}

/// The timers and the counter of a simulation that has not run yet.
pub fn resource_init() -> (r: Resources)
    ensures
        r.food_timer.0 == Timer::fresh(FOOD_PERIOD),
        r.debug_timer.0 == Timer::fresh(REPORT_PERIOD),
        r.time_counter == TimeCounter(0, 0),
{
    Resources {
        food_timer: FoodTimer(Timer::new(FOOD_PERIOD)),
        debug_timer: DebugTimer(Timer::new(REPORT_PERIOD)),
        time_counter: TimeCounter(0, 0),
    }
}

fn draw_values(samples: &mut Samples, count: usize, sigma: i64) -> (r: Vec<i64>)
    ensures
        r@ == drawn(old(samples)@, count as nat, sigma),
        final(samples)@ == rest(old(samples)@, count as int),
        all_in_range(r@),
{
    let ghost s0 = samples@;
    let mut r: Vec<i64> = Vec::new();
    let mut k: usize = 0;
    assert(samples@ =~= rest(s0, 0));
    while k < count
        invariant
            k <= count,
            samples@ == rest(s0, k as int),
            r@ == drawn(s0, k as nat, sigma),
        decreases count - k,
    {
        let v = scale(samples.draw(), sigma);
        proof {
            lemma_rest_sample(s0, k as int, 0);
            lemma_rest_rest(s0, k as int, 1);
        }
        r.push(v);
        k = k + 1;
        assert(r@ =~= drawn(s0, k as nat, sigma));
    }
    r
}

/// Makes what a founder grows from.
pub fn founder_seed(samples: &mut Samples) -> (seed: Seed)
    ensures
        seed@ == founder(old(samples)@),
        final(samples)@ == rest(old(samples)@, founder_samples()),
        all_pairs_in_range(seed@.flagella_params),
        all_in_range(seed@.eye_params),
        all_in_range(seed@.weights),
        all_in_range(seed@.biases),
        all_in_range(seed@.state),
{
    let ghost s0 = samples@;
    let a = samples.draw();
    let b = samples.draw();
    proof {
        lemma_rest_rest(s0, 1, 1);
        lemma_rest_sample(s0, 1, 0);
    }
    let position = Point { x: scale(a, SEEDING_SIGMA), y: scale(b, SEEDING_SIGMA) };
    let mut flagella_params: Vec<(i64, i64)> = Vec::new();
    flagella_params.push((1_570_796, -785_398));
    flagella_params.push((0, 0));
    flagella_params.push((-1_570_796, 785_398));
    let mut eye_params: Vec<i64> = Vec::new();
    eye_params.push(2_722_714);
    eye_params.push(3_141_593);
    eye_params.push(3_560_472);
    let weights = draw_values(samples, FOUNDER_UNITS * FOUNDER_UNITS, FOUNDER_SIGMA);
    let biases = draw_values(samples, FOUNDER_UNITS, FOUNDER_SIGMA);
    let state = draw_values(samples, FOUNDER_UNITS, FOUNDER_SIGMA);
    proof {
        let units = FOUNDER_UNITS as int;
        lemma_rest_rest(s0, 2, units * units);
        lemma_rest_rest(s0, 2 + units * units, units);
        lemma_rest_rest(s0, 2 + units * units + units, units);
        assert(flagella_params@ =~= founder_flagella());
        assert(eye_params@ =~= founder_eyes());
    }
    Seed {
        position,
        rotation: 0,
        energy: BIRTH_ENERGY,
        flagella_params,
        eye_params,
        weights,
        biases,
        state,
    }
}

/// The number of samples that `cell_setup` draws.
pub fn setup_demand() -> (n: usize)
    ensures
        n == FOUNDERS * founder_samples() + 2 * (INITIAL_FOOD as int),
{
    FOUNDERS * (2 + FOUNDER_UNITS * FOUNDER_UNITS + FOUNDER_UNITS + FOUNDER_UNITS) + 2
        * INITIAL_FOOD
}

/// Populates the registry for the start of a simulation: `FOUNDERS` cells
/// with the founders' layout, then `INITIAL_FOOD` food items, all placed and
/// filled from `samples`.
pub fn cell_setup(world: &mut World, samples: &mut Samples)
    requires
        old(world).wf(),
    ensures
        final(world).wf(),
        final(world)@ == settled_world(old(world)@, old(samples)@),
        final(samples)@ == rest(
            old(samples)@,
            FOUNDERS * founder_samples() + 2 * (INITIAL_FOOD as int),
        ),
{
    let ghost w0 = world@;
    let ghost s0 = samples@;
    let mut k: usize = 0;
    assert(samples@ =~= rest(s0, 0));
    while k < FOUNDERS
        invariant
            k <= FOUNDERS,
            world.wf(),
            world@ == founded_upto(w0, s0, k as nat),
            samples@ == rest(s0, k * founder_samples()),
        decreases FOUNDERS - k,
    {
        let seed = founder_seed(samples);
        proof {
            lemma_rest_rest(s0, k * founder_samples(), founder_samples());
            assert(k * founder_samples() + founder_samples() == (k + 1) * founder_samples())
                by (nonlinear_arith);
        }
        if world.slots.len() < usize::MAX - 6 {
            found(world, seed);
        }
        k = k + 1;
    }
    scatter(world, samples, SEEDING_SIGMA, INITIAL_FOOD as u64);
    proof {
        lemma_rest_rest(s0, FOUNDERS * founder_samples(), 2 * (INITIAL_FOOD as int));
    }
}

/// One fixed tick of the simulation. The caller brings what its spatial index
/// found when the tick began: for each cell what overlaps its body, for each
/// eye what overlaps its vision cone.
pub fn fixed_update(
    world: &mut World,
    timer: &mut FoodTimer,
    contacts: &Vec<Contact>,
    sightings: &Vec<Sighting>,
    samples: &mut Samples,
)
    requires
        old(world).wf(),
    ensures
        final(world).wf(),
        final(timer).0 == old(timer).0.ticked(FIXED_DELTA as u64),
        (final(world)@, final(samples)@) == ticked(
            old(world)@,
            *old(timer),
            contacts_view(contacts@),
            sightings_view(sightings@),
            old(samples)@,
        ),
{
    food_spawning(world, timer, samples);
    cell_food_intersection(world, contacts);
    eye_sensing(world, sightings);
    cell_thinking(world);
    decrement_energy(world);
    split_cells(world, samples);
}

/// Counts the population once per `REPORT_PERIOD` of the variable-rate
/// step's time: advances the report timer by the `delta` microseconds that
/// the last step took, and reports if the timer fired.
pub fn count_cells(world: &World, timer: &mut DebugTimer, delta: u64) -> (r: Option<Census>)
    ensures
        final(timer).0 == old(timer).0.ticked(delta),
        r is Some == final(timer).0.finished,
        r matches Some(census) ==> census.rate == rate(delta) && census.cell_count
            == world@.population() && census.food_count == world@.stock(),
{
    timer.0.tick(delta);
    if timer.0.finished() {
        let pace: u64 = if delta == 0 {
            u64::MAX
        } else {
            let q: u128 = (2 * (SECOND as u128) + delta as u128) / (2 * (delta as u128));
            assert(q <= 2_000_001) by (nonlinear_arith)
                requires
                    q == (2 * (SECOND as int) + delta as int) / (2 * (delta as int)),
                    delta >= 1,
                    SECOND == 1_000_000,
            ;
            q as u64
        };
        Some(Census { rate: pace, cell_count: world.population(), food_count: world.stock() })
    } else {
        None
    }
}

/// Adds the `delta` microseconds that the last variable-rate step took to
/// the time counter.
pub fn dynamic_thing(counter: &mut TimeCounter, delta: u64)
    ensures
        final(counter).0 == min_u64(old(counter).0 + delta),
        final(counter).1 == old(counter).1,
{
    counter.0 = if counter.0 > u64::MAX - delta {
        u64::MAX
    } else {
        counter.0 + delta
    };
}

/// Counts one fixed tick. Once a second of the variable-rate step's time has
/// gone by, reports how many fixed ticks were counted and starts over.
pub fn fixed_thing(counter: &mut TimeCounter) -> (r: Option<u64>)
    ensures
        (*final(counter), r) == fixed_counted(*old(counter)),
{
    counter.1 = if counter.1 == u64::MAX {
        u64::MAX
    } else {
        counter.1 + 1
    };
    if counter.0 >= SECOND {
        let ticks = counter.1;
        counter.0 = counter.0 - SECOND;
        counter.1 = 0;
        Some(ticks)
    } else {
        None
    }
}

} // verus!
