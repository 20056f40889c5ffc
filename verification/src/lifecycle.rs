//! Energy and lifecycle: every tick costs energy, a cell that runs short of
//! it dies, and a cell that has gathered enough divides into two mutated
//! children.

use vstd::prelude::*;
use crate::fixed::{
    all_in_range, clamp_int, clamp_sum, perturb, saturate, scale, scaled, turn, wrap_angle, HALF_PI,
};
use crate::params::{
    BIRTH_ENERGY, FIXED_DELTA, LAYOUT_SIGMA, MIN_ENERGY, SPLIT_ENERGY, SPLIT_TURN, WEIGHT_SIGMA,
};
use crate::registry::{despawn_cell, found};
use crate::samples::{lemma_rest_rest, lemma_rest_sample, rest, sample_at, Samples};
use crate::world::{
    all_pairs_in_range, lemma_despawn_cell_wf, lemma_put_cell_wf, lemma_spawn_cell_wf, Blueprint,
    Cell, CellView, Entity, Seed, Slot, SlotView, World, WorldView,
};

verus! {

/// The registry after the cell `i` paid for one fixed tick: it loses
/// `FIXED_DELTA` of energy, and leaves the registry with its organs if that
/// takes it below `MIN_ENERGY`. Any handle that refers to no live cell is
/// left alone.
pub open spec fn age_step(w: WorldView, i: Entity) -> WorldView {
    match w.slot(i as int) {
        SlotView::Cell(c) => if c.energy - FIXED_DELTA < MIN_ENERGY {
            w.despawn_cell(i)
        } else {
            w.put(i as int, SlotView::Cell(CellView { energy: (c.energy - FIXED_DELTA) as i64, ..c }))
        },
        _ => w,
    }
}

/// The registry once the first `count` slots paid for one fixed tick.
pub open spec fn aging_upto(w: WorldView, count: nat) -> WorldView
    decreases count,
{
    if count == 0 {
        w
    } else {
        age_step(aging_upto(w, (count - 1) as nat), (count - 1) as usize)
    }
}

/// The registry after the energy stage.
pub open spec fn aging(w: WorldView) -> WorldView {
    aging_upto(w, w.slots.len())
}

/// Values with noise added: each takes one sample, scaled by `sigma`, and the
/// sum is saturated.
pub open spec fn mutated(values: Seq<i64>, samples: Seq<i64>, sigma: i64) -> Seq<i64> {
    Seq::new(
        values.len(),
        |k: int| saturate(values[k] + scaled(sample_at(samples, k) as int, sigma as int)) as i64,
    )
}

/// A flagellum layout with noise added: each angular position and each thrust
/// angle takes one sample, scaled by `LAYOUT_SIGMA`; the thrust angle is then
/// brought into `[-HALF_PI, HALF_PI]`.
pub open spec fn mutated_layout(layout: Seq<(i64, i64)>, samples: Seq<i64>) -> Seq<(i64, i64)> {
    Seq::new(
        layout.len(),
        |k: int|
            (
                saturate(
                    layout[k].0 + scaled(sample_at(samples, 2 * k) as int, LAYOUT_SIGMA as int),
                ) as i64,
                clamp_int(
                    layout[k].1 + scaled(sample_at(samples, 2 * k + 1) as int, LAYOUT_SIGMA as int),
                    -HALF_PI,
                    HALF_PI as int,
                ) as i64,
            ),
    )
}

/// The number of samples that one child takes.
pub open spec fn genome_len(c: CellView) -> int {
    2 * (c.flagella_params.len() as int) + c.eye_params.len() + c.weights.len()
        + c.biases.len()
}

/// What a child of `c` is made from: it stands where its parent stood, turned
/// by `angle`, holds `BIRTH_ENERGY`, inherits the state as it is, and takes
/// the layouts, weights and biases with noise, in this order.
pub open spec fn child(c: CellView, samples: Seq<i64>, angle: i64) -> Blueprint {
    let s1 = rest(samples, 2 * (c.flagella_params.len() as int));
    let s2 = rest(s1, c.eye_params.len() as int);
    let s3 = rest(s2, c.weights.len() as int);
    Blueprint {
        position: c.position,
        rotation: wrap_angle(c.rotation + angle) as i64,
        energy: BIRTH_ENERGY,
        flagella_params: mutated_layout(c.flagella_params, samples),
        eye_params: mutated(c.eye_params, s1, LAYOUT_SIGMA),
        weights: mutated(c.weights, s2, WEIGHT_SIGMA),
        biases: mutated(c.biases, s3, WEIGHT_SIGMA),
        state: c.state,
    }
}

/// Whether the registry can number two children of `c` and their organs.
pub open spec fn has_room(w: WorldView, c: CellView) -> bool {
    w.slots.len() + 2 * (c.flagella_params.len() + c.eye_params.len() + 1) <= usize::MAX
}

/// Whether the cell `i` is due to divide.
pub open spec fn divides(w: WorldView, i: Entity) -> bool {
    w.slot(i as int) matches SlotView::Cell(c) && c.energy >= SPLIT_ENERGY && has_room(w, c)
}

/// The registry and the samples after the cell `i` had its chance to divide.
/// A cell that holds `SPLIT_ENERGY` or more leaves the registry with its
/// organs, and two children take its place: the first turned by `SPLIT_TURN`,
/// the second by as much the other way. Any other handle is left alone.
pub open spec fn split_step(w: WorldView, i: Entity, samples: Seq<i64>) -> (WorldView, Seq<i64>) {
    if divides(w, i) {
        let c = w.cell(i as int);
        let g = genome_len(c);
        let first = child(c, samples, SPLIT_TURN);
        let second = child(c, rest(samples, g), (-SPLIT_TURN) as i64);
        (w.despawn_cell(i).spawn_cell(first).spawn_cell(second), rest(samples, 2 * g))
    } else {
        (w, samples)
    }
}

/// The registry and the samples once the first `count` slots had their chance
/// to divide.
pub open spec fn dividing_upto(w: WorldView, samples: Seq<i64>, count: nat) -> (
    WorldView,
    Seq<i64>,
)
    decreases count,
{
    if count == 0 {
        (w, samples)
    } else {
        let p = dividing_upto(w, samples, (count - 1) as nat);
        split_step(p.0, (count - 1) as usize, p.1)
    }
}

/// The registry and the samples after the division stage. Children are not
/// looked at in the stage that made them.
pub open spec fn dividing(w: WorldView, samples: Seq<i64>) -> (WorldView, Seq<i64>) {
    dividing_upto(w, samples, w.slots.len())
}

/// The number of samples that the cells among the first `count` slots would
/// draw if each of them that holds `SPLIT_ENERGY` or more divided.
pub open spec fn demand_upto(w: WorldView, count: nat) -> int
    decreases count,
{
    if count == 0 {
        0
    } else {
        demand_upto(w, (count - 1) as nat) + match w.slot(count - 1) {
            SlotView::Cell(c) => if c.energy >= SPLIT_ENERGY {
                2 * genome_len(c)
            } else {
                0
            },
            _ => 0,
        }
    }
}

/// Paying for a tick keeps the registry sound.
pub proof fn lemma_age_step_wf(w: WorldView, i: Entity)
    requires
        w.wf(),
    ensures
        age_step(w, i).wf(),
        age_step(w, i).slots.len() == w.slots.len(),
{
    if let SlotView::Cell(c) = w.slot(i as int) {
        assert(w.slot_ok(i as int));
        if c.energy - FIXED_DELTA < MIN_ENERGY {
            lemma_despawn_cell_wf(w, i);
        } else {
            lemma_put_cell_wf(
                w,
                i as int,
                CellView { energy: (c.energy - FIXED_DELTA) as i64, ..c },
            );
        }
    }
}

/// The energy stage keeps the registry sound and gives out no handle.
pub proof fn lemma_aging_upto_wf(w: WorldView, count: nat)
    requires
        w.wf(),
    ensures
        aging_upto(w, count).wf(),
        aging_upto(w, count).slots.len() == w.slots.len(),
    decreases count,
{
    if count > 0 {
        lemma_aging_upto_wf(w, (count - 1) as nat);
        lemma_age_step_wf(aging_upto(w, (count - 1) as nat), (count - 1) as usize);
    }
}

/// A child of a sound cell is made from a sound blueprint, wherever there is
/// room for it.
pub proof fn lemma_child_sound(c: CellView, samples: Seq<i64>, angle: i64, slots: nat)
    requires
        c.shape_ok(),
        slots + c.flagella_params.len() + c.eye_params.len() < usize::MAX,
    ensures
        child(c, samples, angle).verdict(slots) is None,
        child(c, samples, angle).flagella_params.len() == c.flagella_params.len(),
        child(c, samples, angle).eye_params.len() == c.eye_params.len(),
{
    let b = child(c, samples, angle);
    assert(all_pairs_in_range(b.flagella_params));
    assert(all_in_range(b.eye_params));
    assert(all_in_range(b.weights));
    assert(all_in_range(b.biases));
}

/// Gives one cell its chance to pay for a fixed tick.
pub fn age(world: &mut World, cell_entity: Entity)
    requires
        old(world).wf(),
    ensures
        final(world).wf(),
        final(world)@ == age_step(old(world)@, cell_entity),
{
    if !world.is_cell(cell_entity) {
        return ;
    }
    let ghost w0 = world@;
    let mut starving = false;
    match &mut world.slots[cell_entity] {
        Slot::Cell(c) => {
            if c.energy < MIN_ENERGY + FIXED_DELTA {
                starving = true;
            } else {
                c.energy = c.energy - FIXED_DELTA;
            }
        },
        _ => {},
    }
    if starving {
        assert(world@.slots =~= w0.slots);
        despawn_cell(world, cell_entity);
    } else {
        proof {
            assert(world@.slots =~= age_step(w0, cell_entity).slots);
            lemma_age_step_wf(w0, cell_entity);
        }
    }
}

/// The energy stage: every cell pays for one fixed tick, in the order of the
/// handles, and the cells that run short die.
pub fn decrement_energy(world: &mut World)
    requires
        old(world).wf(),
    ensures
        final(world).wf(),
        final(world)@ == aging(old(world)@),
{
    let ghost w0 = world@;
    let n = world.slots.len();
    let mut i: usize = 0;
    while i < n
        invariant
            i <= n,
            n == w0.slots.len(),
            world.wf(),
            world@ == aging_upto(w0, i as nat),
        decreases n - i,
    {
        age(world, i);
        i = i + 1;
    }
}

fn duplicate(values: &Vec<i64>) -> (r: Vec<i64>)
    ensures
        r@ == values@,
{
    let mut r: Vec<i64> = Vec::new();
    let mut k: usize = 0;
    while k < values.len()
        invariant
            k <= values.len(),
            r@ == values@.take(k as int),
        decreases values.len() - k,
    {
        r.push(values[k]);
        k = k + 1;
        assert(r@ =~= values@.take(k as int));
    }
    assert(values@.take(k as int) =~= values@);
    r
}

fn mutate_values(values: &Vec<i64>, samples: &mut Samples, sigma: i64) -> (r: Vec<i64>)
    ensures
        r@ == mutated(values@, old(samples)@, sigma),
        final(samples)@ == rest(old(samples)@, values@.len() as int),
{
    let ghost s0 = samples@;
    let mut r: Vec<i64> = Vec::new();
    let mut k: usize = 0;
    assert(samples@ =~= rest(s0, 0));
    while k < values.len()
        invariant
            k <= values.len(),
            samples@ == rest(s0, k as int),
            r@ == mutated(values@, s0, sigma).take(k as int),
        decreases values.len() - k,
    {
        let noise = scale(samples.draw(), sigma);
        proof {
            lemma_rest_sample(s0, k as int, 0);
            lemma_rest_rest(s0, k as int, 1);
        }
        r.push(perturb(values[k], noise));
        k = k + 1;
        assert(r@ =~= mutated(values@, s0, sigma).take(k as int));
    }
    assert(r@ =~= mutated(values@, s0, sigma));
    r
}

fn mutate_layout(layout: &Vec<(i64, i64)>, samples: &mut Samples) -> (r: Vec<(i64, i64)>)
    ensures
        r@ == mutated_layout(layout@, old(samples)@),
        final(samples)@ == rest(old(samples)@, 2 * (layout@.len() as int)),
{
    let ghost s0 = samples@;
    let mut r: Vec<(i64, i64)> = Vec::new();
    let mut k: usize = 0;
    assert(samples@ =~= rest(s0, 0));
    while k < layout.len()
        invariant
            k <= layout.len(),
            samples@ == rest(s0, 2 * k),
            r@ == mutated_layout(layout@, s0).take(k as int),
        decreases layout.len() - k,
    {
        let a = scale(samples.draw(), LAYOUT_SIGMA);
        let b = scale(samples.draw(), LAYOUT_SIGMA);
        proof {
            lemma_rest_sample(s0, 2 * k, 0);
            lemma_rest_rest(s0, 2 * k, 1);
            lemma_rest_sample(s0, 2 * k + 1, 0);
            lemma_rest_rest(s0, 2 * k + 1, 1);
        }
        let p = layout[k];
        r.push((perturb(p.0, a), clamp_sum(p.1, b, -HALF_PI, HALF_PI)));
        k = k + 1;
        assert(r@ =~= mutated_layout(layout@, s0).take(k as int));
    }
    assert(r@ =~= mutated_layout(layout@, s0));
    r
}

/// Makes what a child of `c` grows from, turned by `angle` against its parent.
pub fn offspring(c: &Cell, samples: &mut Samples, angle: i64) -> (seed: Seed)
    ensures
        seed@ == child(c@, old(samples)@, angle),
        final(samples)@ == rest(old(samples)@, genome_len(c@)),
{
    let ghost s0 = samples@;
    let flagella_params = mutate_layout(&c.flagella_params, samples);
    let eye_params = mutate_values(&c.eye_params, samples, LAYOUT_SIGMA);
    let weights = mutate_values(&c.weights, samples, WEIGHT_SIGMA);
    let biases = mutate_values(&c.biases, samples, WEIGHT_SIGMA);
    proof {
        let n1 = 2 * (c@.flagella_params.len() as int);
        let n2 = c@.eye_params.len() as int;
        let n3 = c@.weights.len() as int;
        let n4 = c@.biases.len() as int;
        lemma_rest_rest(s0, n1, n2);
        lemma_rest_rest(s0, n1 + n2, n3);
        lemma_rest_rest(s0, n1 + n2 + n3, n4);
        lemma_rest_rest(rest(s0, n1), n2, n3);
    }
    Seed {
        position: c.position,
        rotation: turn(c.rotation, angle),
        energy: BIRTH_ENERGY,
        flagella_params,
        eye_params,
        weights,
        biases,
        state: duplicate(&c.state),
    }
}

/// Gives one cell its chance to divide.
pub fn divide(world: &mut World, cell_entity: Entity, samples: &mut Samples)
    requires
        old(world).wf(),
    ensures
        final(world).wf(),
        (final(world)@, final(samples)@) == split_step(
            old(world)@,
            cell_entity,
            old(samples)@,
        ),
{
    let ghost w0 = world@;
    let ghost s0 = samples@;
    let slots = world.slots.len();
    let seeds = match world.cell(cell_entity) {
        Some(c) => {
            proof {
                assert(w0.slot_ok(cell_entity as int));
            }
            let organs: u128 = c.flagella_params.len() as u128 + c.eye_params.len() as u128;
            if c.energy >= SPLIT_ENERGY && slots as u128 + 2 * (organs + 1) <= usize::MAX as u128 {
                let first = offspring(c, samples, SPLIT_TURN);
                let second = offspring(c, samples, -SPLIT_TURN);
                proof {
                    lemma_rest_rest(s0, genome_len(c@), genome_len(c@));
                    assert(genome_len(c@) >= 0);
                }
                Some((first, second))
            } else {
                None
            }
        },
        None => None,
    };
    if let Some((first, second)) = seeds {
        proof {
            let c = w0.cell(cell_entity as int);
            lemma_despawn_cell_wf(w0, cell_entity);
            lemma_child_sound(c, s0, SPLIT_TURN, w0.slots.len());
            lemma_child_sound(
                c,
                rest(s0, genome_len(c)),
                (-SPLIT_TURN) as i64,
                (w0.slots.len() + c.flagella_params.len() + c.eye_params.len() + 1) as nat,
            );
            lemma_spawn_cell_wf(w0.despawn_cell(cell_entity), first@);
        }
        despawn_cell(world, cell_entity);
        found(world, first);
        found(world, second);
    }
}

/// The number of samples that the division stage can draw as the registry
/// stands, or the largest number that can be written down if that is less.
pub fn mutation_demand(world: &World) -> (n: usize)
    ensures
        n == if demand_upto(world@, world@.slots.len()) > usize::MAX {
            usize::MAX as int
        } else {
            demand_upto(world@, world@.slots.len())
        },
{
    let mut n: usize = 0;
    let mut i: usize = 0;
    while i < world.slots.len()
        invariant
            i <= world.slots.len(),
            demand_upto(world@, i as nat) >= 0,
            n == if demand_upto(world@, i as nat) > usize::MAX {
                usize::MAX as int
            } else {
                demand_upto(world@, i as nat)
            },
        decreases world.slots.len() - i,
    {
        match &world.slots[i] {
            Slot::Cell(c) => {
                if c.energy >= SPLIT_ENERGY {
                    let g: u128 = 2 * (c.flagella_params.len() as u128) + c.eye_params.len() as u128
                        + c.weights.len() as u128 + c.biases.len() as u128;
                    assert(g == genome_len(c@));
                    let total: u128 = n as u128 + 2 * g;
                    n = if total > usize::MAX as u128 {
                        usize::MAX
                    } else {
                        total as usize
                    };
                }
            },
            _ => {},
        }
        i = i + 1;
    }
    n
}

/// The division stage: every cell that was alive when the stage began has its
/// chance to divide, in the order of the handles.
pub fn split_cells(world: &mut World, samples: &mut Samples)
    requires
        old(world).wf(),
    ensures
        final(world).wf(),
        (final(world)@, final(samples)@) == dividing(old(world)@, old(samples)@),
{
    let ghost w0 = world@;
    let ghost s0 = samples@;
    let n = world.slots.len();
    let mut i: usize = 0;
    while i < n
        invariant
            i <= n,
            n == w0.slots.len(),
            world.wf(),
            (world@, samples@) == dividing_upto(w0, s0, i as nat),
        decreases n - i,
    {
        divide(world, i, samples);
        i = i + 1;
    }
}

} // verus!
