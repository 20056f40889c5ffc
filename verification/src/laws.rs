//! Laws of the simulation, stated over the model of the registry and proved
//! from the definitions of the stages.

use vstd::prelude::*;
use crate::fixed::{
    all_in_range, in_range, is_root, lemma_root_exists, lemma_root_unique, root, sigmoid_spec,
    tanh_spec, wrap_angle, HALF_PI, ONE,
};
use crate::feeding::{bite, credited, feeding, feeding_upto, food_due, meal, scattered, ContactView};
use crate::lifecycle::{
    age_step, aging, aging_upto, child, demand_upto, divides, dividing, dividing_upto, has_room,
    lemma_aging_upto_wf, lemma_child_sound, split_step,
};
use crate::params::{
    BIRTH_ENERGY, FIXED_DELTA, MIN_ENERGY, SPLIT_ENERGY, SPLIT_TURN, TRICKLE_SIGMA, VISION_RANGE,
};
use crate::schedule::ticked;
use crate::timer::FoodTimer;
use crate::samples::rest;
use crate::sensing::{
    brightest, contribution, distance, eye_level, lemma_eye_level_bounds, max_int, seen, sensed,
    SightingView,
};
use crate::thinking::{
    actuated, drive, eye_activation_of, first_output, injected, lemma_thinking_upto_wf, looks,
    pairs, renewed, settled, think_step, thinking, thinking_upto, thought,
};
use crate::timer::ThinkingTimer;
use crate::world::{
    cells_among, lemma_despawn_cell_wf, lemma_spawn_cell_wf, lists, lists_before, CellDespawnEvent,
    CellView, Entity, Eye, Food, FoodDespawnEvent, Notification, Point, SlotView, WorldView,
};

verus! {

/// Whether every slot of `w` can be named by a handle.
pub open spec fn addressable(w: WorldView) -> bool {
    w.slots.len() <= usize::MAX
}

/// Whether the tick costs the cell `c` its life.
pub open spec fn starves(c: CellView) -> bool {
    c.energy - FIXED_DELTA < MIN_ENERGY
}

/// The cell `c` after it paid for one fixed tick.
pub open spec fn older(c: CellView) -> CellView {
    CellView { energy: (c.energy - FIXED_DELTA) as i64, ..c }
}

/// Whether the cell `c` is gone from `r` with all its organs.
pub open spec fn gone(r: WorldView, i: int, c: CellView) -> bool {
    &&& r.slot(i) is Vacant
    &&& forall|k: int| 0 <= k < c.flagella.len() ==> r.slot(#[trigger] c.flagella[k] as int) is Vacant
    &&& forall|k: int| 0 <= k < c.eyes.len() ==> r.slot(#[trigger] c.eyes[k] as int) is Vacant
}

/// What the energy stage has made of the slot `j` once the first `count`
/// slots had their turn.
pub open spec fn aged_slot(w: WorldView, r: WorldView, count: int, j: int) -> bool {
    match w.slots[j] {
        SlotView::Cell(c) => if j < count {
            if starves(c) {
                gone(r, j, c)
            } else {
                r.slots[j] == SlotView::Cell(older(c))
            }
        } else {
            r.slots[j] == w.slots[j]
        },
        SlotView::Flagellum(_) => r.slots[j] == w.slots[j] || r.slots[j] is Vacant,
        SlotView::Eye(_) => r.slots[j] == w.slots[j] || r.slots[j] is Vacant,
        _ => r.slots[j] == w.slots[j],
    }
}

proof fn lemma_aging_slots(w: WorldView, count: nat)
    requires
        w.wf(),
        addressable(w),
        count <= w.slots.len(),
    ensures
        aging_upto(w, count).wf(),
        aging_upto(w, count).slots.len() == w.slots.len(),
        forall|j: int| 0 <= j < w.slots.len() ==> aged_slot(w, aging_upto(w, count), count as int, j),
    decreases count,
{
    lemma_aging_upto_wf(w, count);
    if count > 0 {
        let m = (count - 1) as int;
        let p = aging_upto(w, m as nat);
        let r = aging_upto(w, count);
        lemma_aging_slots(w, m as nat);
        lemma_aging_upto_wf(w, m as nat);
        assert(r == age_step(p, m as usize));
        assert(aged_slot(w, p, m, m));
        assert(p.slot_ok(m));
        assert forall|j: int| 0 <= j < w.slots.len() implies aged_slot(w, r, count as int, j) by {
            assert(aged_slot(w, p, m, j));
            assert(p.slot_ok(j));
            match p.slot(m) {
                SlotView::Cell(cm) => {
                    if starves(cm) {
                        if lists(cm.flagella, j) {
                            let k = choose|k: int|
                                0 <= k < cm.flagella.len() && cm.flagella[k] == j;
                            assert(p.owns_flagellum(m, cm.flagella[k] as int));
                        }
                        if lists(cm.eyes, j) {
                            let k = choose|k: int| 0 <= k < cm.eyes.len() && cm.eyes[k] == j;
                            assert(p.owns_eye(m, cm.eyes[k] as int));
                        }
                        if j == m {
                            assert forall|k: int| 0 <= k < cm.flagella.len() implies r.slot(
                                #[trigger] cm.flagella[k] as int,
                            ) is Vacant by {
                                assert(p.owns_flagellum(m, cm.flagella[k] as int));
                                assert(lists(cm.flagella, cm.flagella[k] as int));
                            }
                            assert forall|k: int| 0 <= k < cm.eyes.len() implies r.slot(
                                #[trigger] cm.eyes[k] as int,
                            ) is Vacant by {
                                assert(p.owns_eye(m, cm.eyes[k] as int));
                                assert(lists(cm.eyes, cm.eyes[k] as int));
                            }
                        }
                    }
                },
                _ => {},
            }
            if let SlotView::Cell(c) = w.slots[j] {
                if j < m && starves(c) {
                    assert(gone(p, j, c));
                    assert forall|k: int| 0 <= k < c.flagella.len() implies r.slot(
                        #[trigger] c.flagella[k] as int,
                    ) is Vacant by {
                        assert(p.slot(c.flagella[k] as int) is Vacant);
                    }
                    assert forall|k: int| 0 <= k < c.eyes.len() implies r.slot(
                        #[trigger] c.eyes[k] as int,
                    ) is Vacant by {
                        assert(p.slot(c.eyes[k] as int) is Vacant);
                    }
                }
            }
        }
    }
}

/// Absent feeding and division, a cell that can afford the tick loses exactly
/// `FIXED_DELTA` of energy in the energy stage and is otherwise unchanged.
pub proof fn law_energy_decay(w: WorldView, i: Entity)
    requires
        w.wf(),
        addressable(w),
        w.is_cell(i as int),
        !starves(w.cell(i as int)),
    ensures
        aging(w).slot(i as int) == SlotView::Cell(older(w.cell(i as int))),
        aging(w).cell(i as int).energy == w.cell(i as int).energy - FIXED_DELTA,
{
    lemma_aging_slots(w, w.slots.len());
    assert(aged_slot(w, aging(w), w.slots.len() as int, i as int));
}

/// A cell whose energy falls below `MIN_ENERGY` leaves the registry, with
/// all its organs, in the very stage in which it does.
pub proof fn law_starvation(w: WorldView, i: Entity)
    requires
        w.wf(),
        addressable(w),
        w.is_cell(i as int),
        starves(w.cell(i as int)),
    ensures
        gone(aging(w), i as int, w.cell(i as int)),
{
    lemma_aging_slots(w, w.slots.len());
    assert(aged_slot(w, aging(w), w.slots.len() as int, i as int));
}

/// The energy stage creates nothing: what is no cell stays as it is or
/// leaves, and the stage gives out no handle.
pub proof fn law_aging_creates_nothing(w: WorldView, j: int)
    requires
        w.wf(),
        addressable(w),
        0 <= j < w.slots.len(),
    ensures
        aging(w).slots.len() == w.slots.len(),
        aging(w).wf(),
        !(w.slots[j] is Cell) ==> aging(w).slots[j] == w.slots[j] || aging(w).slots[j] is Vacant,
        w.slots[j] is Food ==> aging(w).slots[j] == w.slots[j],
{
    lemma_aging_slots(w, w.slots.len());
    assert(aged_slot(w, aging(w), w.slots.len() as int, j));
}

/// The notifications of the cells among the first `count` slots that starve,
/// in the order of their handles.
pub open spec fn obituaries(w: WorldView, count: nat) -> Seq<Notification>
    decreases count,
{
    if count == 0 {
        Seq::empty()
    } else {
        let before = obituaries(w, (count - 1) as nat);
        match w.slot(count - 1) {
            SlotView::Cell(c) => if starves(c) {
                before.push(Notification::CellDespawn(CellDespawnEvent((count - 1) as usize)))
            } else {
                before
            },
            _ => before,
        }
    }
}

/// How often `e` occurs in `events`.
pub open spec fn occurrences(events: Seq<Notification>, e: Notification) -> nat
    decreases events.len(),
{
    if events.len() == 0 {
        0
    } else {
        occurrences(events.drop_last(), e) + if events.last() == e {
            1nat
        } else {
            0nat
        }
    }
}

proof fn lemma_aging_events(w: WorldView, count: nat)
    requires
        w.wf(),
        addressable(w),
        count <= w.slots.len(),
    ensures
        aging_upto(w, count).events == w.events + obituaries(w, count),
    decreases count,
{
    if count == 0 {
        assert(w.events + obituaries(w, 0) =~= w.events);
    } else {
        let m = (count - 1) as int;
        let p = aging_upto(w, m as nat);
        lemma_aging_events(w, m as nat);
        lemma_aging_slots(w, m as nat);
        assert(aged_slot(w, p, m, m));
        assert(p.slot(m) is Cell <==> w.slot(m) is Cell);
        assert(w.slot(m) is Cell ==> p.slot(m) == w.slot(m));
        assert(aging_upto(w, count).events =~= w.events + obituaries(w, count));
    }
}

proof fn lemma_one_obituary(w: WorldView, count: nat, i: Entity)
    requires
        addressable(w),
        count <= w.slots.len(),
    ensures
        occurrences(obituaries(w, count), Notification::CellDespawn(CellDespawnEvent(i))) == if i
            < count && w.is_cell(i as int) && starves(w.cell(i as int)) {
            1nat
        } else {
            0nat
        },
    decreases count,
{
    if count > 0 {
        lemma_one_obituary(w, (count - 1) as nat, i);
        let before = obituaries(w, (count - 1) as nat);
        let e = Notification::CellDespawn(CellDespawnEvent((count - 1) as usize));
        assert(before.push(e).drop_last() =~= before);
    }
}

/// The energy stage announces the death of each cell that starves exactly
/// once, in the order of the handles, and announces nothing else.
pub proof fn law_one_despawn_notification(w: WorldView, i: Entity)
    requires
        w.wf(),
        addressable(w),
    ensures
        aging(w).events == w.events + obituaries(w, w.slots.len()),
        occurrences(
            obituaries(w, w.slots.len()),
            Notification::CellDespawn(CellDespawnEvent(i)),
        ) == if w.is_cell(i as int) && starves(w.cell(i as int)) {
            1nat
        } else {
            0nat
        },
{
    lemma_aging_events(w, w.slots.len());
    lemma_one_obituary(w, w.slots.len(), i);
}

/// What is no live cell takes no part in feeding, thinking, aging or
/// division.
pub proof fn law_the_dead_do_nothing(w: WorldView, i: Entity, x: Entity, samples: Seq<i64>)
    requires
        !w.is_cell(i as int),
    ensures
        bite(w, i as int, x) == w,
        think_step(w, i as int) == w,
        age_step(w, i) == w,
        split_step(w, i, samples) == (w, samples),
{
}

/// The registry after `n` energy stages in a row.
pub open spec fn aged(w: WorldView, n: nat) -> WorldView
    decreases n,
{
    if n == 0 {
        w
    } else {
        aging(aged(w, (n - 1) as nat))
    }
}

/// A cell that neither eats nor divides lives exactly as long as its energy
/// lasts: after `n` energy stages it is alive, with `n * FIXED_DELTA` less,
/// if that leaves it `MIN_ENERGY` or more; otherwise it is gone after the
/// first stage that it could not afford.
pub proof fn law_lifetime(w: WorldView, i: Entity, n: nat)
    requires
        w.wf(),
        addressable(w),
        w.is_cell(i as int),
    ensures
        aged(w, n).wf(),
        aged(w, n).slots.len() == w.slots.len(),
        w.cell(i as int).energy - n * FIXED_DELTA >= MIN_ENERGY ==> aged(w, n).slot(i as int)
            == SlotView::Cell(
            CellView {
                energy: (w.cell(i as int).energy - n * FIXED_DELTA) as i64,
                ..w.cell(i as int)
            },
        ),
        n >= 1 && w.cell(i as int).energy - n * FIXED_DELTA < MIN_ENERGY ==> aged(w, n).slot(
            i as int,
        ) is Vacant,
    decreases n,
{
    let c = w.cell(i as int);
    if n > 0 {
        let p = aged(w, (n - 1) as nat);
        assert(n * FIXED_DELTA == (n - 1) * FIXED_DELTA + FIXED_DELTA) by (nonlinear_arith);
        assert((n - 1) * FIXED_DELTA >= 0) by (nonlinear_arith)
            requires
                n >= 1,
        ;
        law_lifetime(w, i, (n - 1) as nat);
        lemma_aging_slots(p, p.slots.len());
        assert(aged_slot(p, aging(p), p.slots.len() as int, i as int));
    }
}

/// The stage in which a cell starves, where its energy above `MIN_ENERGY` is
/// no whole number of ticks' worth: a cell that neither eats nor divides is
/// alive until the energy stage number `(energy - MIN_ENERGY) / FIXED_DELTA`,
/// rounded up, and gone after it.
pub proof fn law_starvation_tick(w: WorldView, i: Entity)
    requires
        w.wf(),
        addressable(w),
        w.is_cell(i as int),
        w.cell(i as int).energy >= MIN_ENERGY,
        (w.cell(i as int).energy - MIN_ENERGY) % (FIXED_DELTA as int) != 0,
    ensures
        ({
            let last = (w.cell(i as int).energy - MIN_ENERGY) / (FIXED_DELTA as int) + 1;
            &&& last >= 1
            &&& aged(w, (last - 1) as nat).is_cell(i as int)
            &&& aged(w, last as nat).slot(i as int) is Vacant
        }),
{
    let spare = w.cell(i as int).energy - MIN_ENERGY;
    let q = spare / (FIXED_DELTA as int);
    vstd::arithmetic::div_mod::lemma_fundamental_div_mod(spare, FIXED_DELTA as int);
    vstd::arithmetic::div_mod::lemma_mod_bound(spare, FIXED_DELTA as int);
    assert(q >= 0) by (nonlinear_arith)
        requires
            spare == FIXED_DELTA * q + spare % (FIXED_DELTA as int),
            0 <= spare % (FIXED_DELTA as int) < FIXED_DELTA,
            spare >= 0,
            FIXED_DELTA > 0,
    ;
    assert(q * FIXED_DELTA == FIXED_DELTA * q) by (nonlinear_arith);
    assert((q + 1) * FIXED_DELTA == FIXED_DELTA * q + FIXED_DELTA) by (nonlinear_arith);
    law_lifetime(w, i, q as nat);
    law_lifetime(w, i, (q + 1) as nat);
}

proof fn lemma_cells_among_same(s: Seq<SlotView>, t: Seq<SlotView>)
    requires
        s.len() == t.len(),
        forall|j: int| 0 <= j < s.len() ==> (s[j] is Cell) == (t[j] is Cell),
    ensures
        cells_among(s) == cells_among(t),
    decreases s.len(),
{
    if s.len() > 0 {
        lemma_cells_among_same(s.drop_last(), t.drop_last());
    }
}

proof fn lemma_cells_among_one_less(s: Seq<SlotView>, t: Seq<SlotView>, i: int)
    requires
        s.len() == t.len(),
        0 <= i < s.len(),
        s[i] is Cell,
        !(t[i] is Cell),
        forall|j: int| 0 <= j < s.len() && j != i ==> (s[j] is Cell) == (t[j] is Cell),
    ensures
        cells_among(s) == cells_among(t) + 1,
    decreases s.len(),
{
    if i == s.len() - 1 {
        lemma_cells_among_same(s.drop_last(), t.drop_last());
    } else {
        lemma_cells_among_one_less(s.drop_last(), t.drop_last(), i);
    }
}

proof fn lemma_cells_among_tail(t: Seq<SlotView>, n: int)
    requires
        0 <= n <= t.len(),
        forall|j: int| n <= j < t.len() ==> !(t[j] is Cell),
    ensures
        cells_among(t) == cells_among(t.take(n)),
    decreases t.len() - n,
{
    if n == t.len() {
        assert(t.take(n) =~= t);
    } else {
        lemma_cells_among_tail(t.drop_last(), n);
        assert(t.drop_last().take(n) =~= t.take(n));
    }
}

/// A slot sequence that carries on `s` with organs and ends in a cell holds
/// one cell more than `s`.
proof fn lemma_cells_among_birth(s: Seq<SlotView>, t: Seq<SlotView>)
    requires
        s.len() < t.len(),
        forall|j: int| 0 <= j < s.len() ==> t[j] == s[j],
        forall|j: int| s.len() <= j < t.len() - 1 ==> !(t[j] is Cell),
        t.last() is Cell,
    ensures
        cells_among(t) == cells_among(s) + 1,
{
    lemma_cells_among_tail(t.drop_last(), s.len() as int);
    assert(t.drop_last().take(s.len() as int) =~= s);
}

/// What division makes of a cell whose energy has reached `SPLIT_ENERGY`:
/// the parent leaves the registry with its organs, and exactly two cells join
/// it. Both stand where the parent stood, hold `BIRTH_ENERGY` and the
/// parent's state as it was; they are turned by `SPLIT_TURN` one way and the
/// other. The population grows by one.
pub proof fn law_division(w: WorldView, i: Entity, samples: Seq<i64>)
    requires
        w.wf(),
        divides(w, i),
    ensures
        ({
            let c = w.cell(i as int);
            let r = split_step(w, i, samples).0;
            let organs = (c.flagella.len() + c.eyes.len()) as int;
            let first = w.slots.len() as int + organs;
            let second = first + 1 + organs;
            &&& r.wf()
            &&& r.slots.len() == second + 1
            &&& gone(r, i as int, c)
            &&& r.slot(first) matches SlotView::Cell(x) && x.state == c.state && x.energy
                == BIRTH_ENERGY && x.position == c.position && x.rotation == wrap_angle(
                c.rotation + SPLIT_TURN,
            )
            &&& r.slot(second) matches SlotView::Cell(y) && y.state == c.state && y.energy
                == BIRTH_ENERGY && y.position == c.position && y.rotation == wrap_angle(
                c.rotation - SPLIT_TURN,
            )
            &&& forall|j: int|
                w.slots.len() <= j < r.slots.len() && j != first && j != second ==> !(r.slot(j) is Cell)
            &&& forall|j: int|
                0 <= j < w.slots.len() && j != i && w.slot(j) is Cell ==> r.slot(j) == w.slot(j)
            &&& forall|j: int|
                0 <= j < w.slots.len() && j != i && !(w.slot(j) is Flagellum) && !(w.slot(j) is Eye)
                    ==> r.slot(j) == w.slot(j)
            &&& forall|j: int|
                0 <= j < w.slots.len() ==> r.slot(j) == w.slot(j) || r.slot(j) is Vacant
            &&& r.population() == w.population() + 1
        }),
{
    let c = w.cell(i as int);
    let g = crate::lifecycle::genome_len(c);
    let b1 = child(c, samples, SPLIT_TURN);
    let b2 = child(c, rest(samples, g), (-SPLIT_TURN) as i64);
    let d = w.despawn_cell(i);
    let r1 = d.spawn_cell(b1);
    let r2 = r1.spawn_cell(b2);
    let n = w.slots.len() as int;
    let organs = (c.flagella.len() + c.eyes.len()) as int;
    assert(w.slot_ok(i as int));
    assert(split_step(w, i, samples).0 == r2);
    lemma_despawn_cell_wf(w, i);
    lemma_child_sound(c, samples, SPLIT_TURN, w.slots.len());
    lemma_spawn_cell_wf(d, b1);
    lemma_child_sound(c, rest(samples, g), (-SPLIT_TURN) as i64, (n + organs + 1) as nat);
    lemma_spawn_cell_wf(r1, b2);
    let first = n + organs;
    let second = first + 1 + organs;
    assert(d.next_cell(b1) == first);
    assert(r1.next_cell(b2) == second);
    assert(r2.slot(first) == r1.slot(first));
    assert forall|k: int| 0 <= k < c.flagella.len() implies r2.slot(
        #[trigger] c.flagella[k] as int,
    ) is Vacant by {
        let h = c.flagella[k] as int;
        assert(w.owns_flagellum(i as int, h));
        assert(lists(c.flagella, h));
        assert(d.slot(h) is Vacant);
        assert(r1.slot(h) == d.slot(h));
        assert(r2.slot(h) == r1.slot(h));
    }
    assert forall|k: int| 0 <= k < c.eyes.len() implies r2.slot(#[trigger] c.eyes[k] as int) is Vacant by {
        let h = c.eyes[k] as int;
        assert(w.owns_eye(i as int, h));
        assert(lists(c.eyes, h));
        assert(d.slot(h) is Vacant);
        assert(r1.slot(h) == d.slot(h));
        assert(r2.slot(h) == r1.slot(h));
    }
    assert(r1.slot(i as int) == d.slot(i as int));
    assert(r2.slot(i as int) == r1.slot(i as int));
    assert forall|j: int| n <= j < r2.slots.len() && j != first && j != second implies !(r2.slot(
        j,
    ) is Cell) by {
        if j < first {
            assert(!(r1.slot(j) is Cell));
            assert(r2.slot(j) == r1.slot(j));
        } else {
            assert(!(r2.slot(j) is Cell));
        }
    }
    assert forall|j: int| 0 <= j < n && j != i && w.slot(j) is Cell implies r2.slot(j) == w.slot(
        j,
    ) by {
        if lists(c.flagella, j) {
            let k = choose|k: int| 0 <= k < c.flagella.len() && c.flagella[k] == j;
            assert(w.owns_flagellum(i as int, c.flagella[k] as int));
        }
        if lists(c.eyes, j) {
            let k = choose|k: int| 0 <= k < c.eyes.len() && c.eyes[k] == j;
            assert(w.owns_eye(i as int, c.eyes[k] as int));
        }
        assert(d.slot(j) == w.slot(j));
        assert(r1.slot(j) == d.slot(j));
        assert(r2.slot(j) == r1.slot(j));
    }
    assert forall|j: int|
        0 <= j < n && j != i && !(w.slot(j) is Flagellum) && !(w.slot(j) is Eye) implies r2.slot(j)
        == w.slot(j) by {
        if lists(c.flagella, j) {
            let k = choose|k: int| 0 <= k < c.flagella.len() && c.flagella[k] == j;
            assert(w.owns_flagellum(i as int, c.flagella[k] as int));
        }
        if lists(c.eyes, j) {
            let k = choose|k: int| 0 <= k < c.eyes.len() && c.eyes[k] == j;
            assert(w.owns_eye(i as int, c.eyes[k] as int));
        }
        assert(d.slot(j) == w.slot(j));
        assert(r1.slot(j) == d.slot(j));
        assert(r2.slot(j) == r1.slot(j));
    }
    assert forall|j: int| 0 <= j < n implies r2.slot(j) == w.slot(j) || r2.slot(j) is Vacant by {
        assert(r1.slot(j) == d.slot(j));
        assert(r2.slot(j) == r1.slot(j));
    }
    assert forall|j: int| 0 <= j < n && j != i implies (w.slots[j] is Cell) == (d.slots[j] is Cell) by {
        if lists(c.flagella, j) {
            let k = choose|k: int| 0 <= k < c.flagella.len() && c.flagella[k] == j;
            assert(w.owns_flagellum(i as int, c.flagella[k] as int));
        }
        if lists(c.eyes, j) {
            let k = choose|k: int| 0 <= k < c.eyes.len() && c.eyes[k] == j;
            assert(w.owns_eye(i as int, c.eyes[k] as int));
        }
    }
    lemma_cells_among_one_less(w.slots, d.slots, i as int);
    assert forall|j: int| 0 <= j < d.slots.len() implies r1.slots[j] == d.slots[j] by {
        assert(r1.slot(j) == d.slot(j));
    }
    assert forall|j: int| d.slots.len() <= j < r1.slots.len() - 1 implies !(r1.slots[j] is Cell) by {
        assert(!(r1.slot(j) is Cell));
    }
    assert(r1.slots.last() == r1.slot(first));
    lemma_cells_among_birth(d.slots, r1.slots);
    assert forall|j: int| 0 <= j < r1.slots.len() implies r2.slots[j] == r1.slots[j] by {
        assert(r2.slot(j) == r1.slot(j));
    }
    assert forall|j: int| r1.slots.len() <= j < r2.slots.len() - 1 implies !(r2.slots[j] is Cell) by {
        assert(!(r2.slot(j) is Cell));
    }
    assert(r2.slots.last() == r2.slot(second));
    lemma_cells_among_birth(r1.slots, r2.slots);
}

/// The thrust angle of every flagellum of a child lies within a quarter turn
/// of straight, whatever the noise.
pub proof fn law_thrust_angle_clamped(c: CellView, samples: Seq<i64>, angle: i64, k: int)
    requires
        0 <= k < c.flagella_params.len(),
    ensures
        child(c, samples, angle).flagella_params.len() == c.flagella_params.len(),
        -HALF_PI <= child(c, samples, angle).flagella_params[k].1 <= HALF_PI,
{
}

/// Food where the eye stands is fully visible; food at `VISION_RANGE` or
/// beyond is not visible at all; what is no food is not visible either.
pub proof fn law_visibility(w: WorldView, origin: Point, x: int)
    ensures
        contribution(0) == ONE,
        forall|d: int| d >= VISION_RANGE * ONE ==> #[trigger] contribution(d) == 0,
        w.slot(x) == SlotView::Food(Food { position: origin }) ==> seen(w, origin, x) == ONE,
        !w.is_food(x) ==> seen(w, origin, x) == 0,
        0 <= seen(w, origin, x) <= ONE,
{
    assert(distance(origin, origin) == 0) by {
        lemma_root_exists(0);
        assert(is_root(0, 0));
        lemma_root_unique(0, 0, root(0));
    }
}

/// An eye sees nothing if no food overlaps its cone, and an eye that no
/// sighting names sees nothing.
pub proof fn law_nothing_in_sight(
    w: WorldView,
    sightings: Seq<SightingView>,
    e: Entity,
    origin: Point,
    overlaps: Seq<Entity>,
)
    ensures
        brightest(w, origin, Seq::empty()) == 0,
        (forall|m: int| 0 <= m < overlaps.len() ==> !w.is_food(#[trigger] overlaps[m] as int))
            ==> brightest(w, origin, overlaps) == 0,
        (forall|k: int| 0 <= k < sightings.len() ==> (#[trigger] sightings[k]).eye != e)
            ==> eye_level(w, sightings, e as int) == 0,
        w.slot(e as int) matches SlotView::Eye(y) ==> sensed(w, sightings).slot(e as int)
            == SlotView::Eye(Eye { activation: eye_level(w, sightings, e as int) as i64, ..y }),
    decreases overlaps.len() + sightings.len(),
{
    if overlaps.len() > 0 {
        if forall|m: int| 0 <= m < overlaps.len() ==> !w.is_food(#[trigger] overlaps[m] as int) {
            assert forall|m: int| 0 <= m < overlaps.drop_last().len() implies !w.is_food(
                #[trigger] overlaps.drop_last()[m] as int,
            ) by {
                assert(overlaps.drop_last()[m] == overlaps[m]);
            }
            law_nothing_in_sight(w, Seq::empty(), e, origin, overlaps.drop_last());
            assert(!w.is_food(overlaps[overlaps.len() - 1] as int));
        }
    }
    if sightings.len() > 0 {
        if forall|k: int| 0 <= k < sightings.len() ==> (#[trigger] sightings[k]).eye != e {
            assert forall|k: int| 0 <= k < sightings.drop_last().len() implies (
            #[trigger] sightings.drop_last()[k]).eye != e by {
                assert(sightings.drop_last()[k] == sightings[k]);
            }
            law_nothing_in_sight(w, sightings.drop_last(), e, origin, Seq::empty());
            assert(sightings[sightings.len() - 1].eye != e);
        }
    }
}

proof fn lemma_brightest_covers(w: WorldView, origin: Point, overlaps: Seq<Entity>, m: int)
    requires
        0 <= m < overlaps.len(),
    ensures
        brightest(w, origin, overlaps) >= seen(w, origin, overlaps[m] as int),
    decreases overlaps.len(),
{
    if m < overlaps.len() - 1 {
        lemma_brightest_covers(w, origin, overlaps.drop_last(), m);
    }
}

proof fn lemma_eye_level_covers(w: WorldView, sightings: Seq<SightingView>, e: int, k: int)
    requires
        0 <= k < sightings.len(),
        sightings[k].eye == e,
    ensures
        eye_level(w, sightings, e) >= brightest(w, sightings[k].origin, sightings[k].overlaps),
    decreases sightings.len(),
{
    if k < sightings.len() - 1 {
        lemma_eye_level_covers(w, sightings.drop_last(), e, k);
    }
}

/// The activation of an eye is no less than the visibility of any food that
/// a sighting reports for it: the nearest food dominates. An eye with food
/// where it stands is fully activated.
pub proof fn law_nearest_food_dominates(
    w: WorldView,
    sightings: Seq<SightingView>,
    k: int,
    m: int,
)
    requires
        0 <= k < sightings.len(),
        0 <= m < sightings[k].overlaps.len(),
    ensures
        ({
            let s = sightings[k];
            let level = eye_level(w, sightings, s.eye as int);
            &&& seen(w, s.origin, s.overlaps[m] as int) <= level <= ONE
            &&& w.slot(s.overlaps[m] as int) == SlotView::Food(Food { position: s.origin })
                ==> level == ONE
        }),
{
    let s = sightings[k];
    lemma_eye_level_covers(w, sightings, s.eye as int, k);
    lemma_brightest_covers(w, s.origin, s.overlaps, m);
    lemma_eye_level_bounds(w, sightings, s.eye as int);
    law_visibility(w, s.origin, s.overlaps[m] as int);
}

/// The entry of a row-major square matrix of `n` rows.
pub open spec fn entry(weights: Seq<i64>, n: int, i: int, j: int) -> i64 {
    weights[i * n + j]
}

/// Whether `weights` is the identity matrix of `n` rows, in fixed point.
pub open spec fn is_identity(weights: Seq<i64>, n: int) -> bool {
    &&& weights.len() == n * n
    &&& forall|i: int, j: int|
        0 <= i < n && 0 <= j < n ==> #[trigger] entry(weights, n, i, j) == if i == j {
            ONE
        } else {
            0
        }
}

proof fn lemma_drive_identity(state: Seq<i64>, weights: Seq<i64>, j: int, count: nat)
    requires
        is_identity(weights, state.len() as int),
        0 <= j < state.len(),
        count <= state.len(),
    ensures
        drive(state, weights, j, count) == if j < count {
            state[j] * ONE
        } else {
            0
        },
    decreases count,
{
    if count > 0 {
        let i = count - 1;
        let n = state.len() as int;
        lemma_drive_identity(state, weights, j, i as nat);
        assert(entry(weights, n, i, j) == weights[i * n + j]);
        let a = state[i] as int;
        if i == j {
            assert(a * ONE == state[j] * ONE);
        } else {
            assert(a * 0 == 0);
        }
    }
}

/// With the identity for weights and zero biases, one firing leaves in each
/// unit what the activation function of its segment makes of the unit's own
/// value after the eyes were written in. So a unit of the middle segment that
/// an eye was written into holds the hyperbolic tangent of that eye's
/// activation.
pub proof fn law_identity_controller(c: CellView, looks: Seq<i64>, j: int)
    requires
        is_identity(c.weights, c.state.len() as int),
        c.biases.len() == c.state.len(),
        forall|k: int| 0 <= k < c.biases.len() ==> #[trigger] c.biases[k] == 0,
        all_in_range(c.state),
        all_in_range(looks),
        0 <= j < c.state.len(),
    ensures
        thought(c, looks)[j] == settled(c, injected(c.state, looks)[j] as int, j),
        j < looks.len() && c.flagella.len() <= j < c.state.len() - c.eyes.len() ==> thought(
            c,
            looks,
        )[j] == tanh_spec(looks[j] as int),
        looks.len() <= j && c.flagella.len() <= j < c.state.len() - c.eyes.len() ==> thought(
            c,
            looks,
        )[j] == tanh_spec(c.state[j] as int),
        j < looks.len() && j < c.flagella.len() ==> thought(c, looks)[j] == looks[j],
        looks.len() <= j && c.flagella.len() <= j && c.state.len() - c.eyes.len() <= j ==> thought(
            c,
            looks,
        )[j] == sigmoid_spec(c.state[j] as int),
{
    let s = injected(c.state, looks);
    lemma_drive_identity(s, c.weights, j, s.len());
    let v = s[j] as int;
    assert((v * ONE) / (ONE as int) == v) by (nonlinear_arith);
    assert(in_range(v));
    assert(renewed(c, s, j) == v);
    crate::fixed::lemma_tanh_bounds(v);
    crate::fixed::lemma_sigmoid_bounds(v);
}

/// A food item feeds one cell at most: once a cell has eaten it, a second
/// cell that touches it gets nothing, and the registry is as the first bite
/// left it. The first bite credits its cell with `ENERGY_PER_FOOD`, announces
/// the food's removal once, and touches no other slot.
pub proof fn law_food_feeds_once(w: WorldView, a: Entity, b: Entity, x: Entity)
    requires
        w.is_cell(a as int),
        w.is_food(x as int),
    ensures
        bite(bite(w, a as int, x), b as int, x) == bite(w, a as int, x),
        bite(w, a as int, x).slot(x as int) is Vacant,
        bite(w, a as int, x).cell(a as int).energy == credited(w.cell(a as int).energy),
        bite(w, a as int, x).events == w.events.push(
            Notification::FoodDespawn(FoodDespawnEvent(x)),
        ),
        forall|j: int|
            j != a && j != x ==> #[trigger] bite(w, a as int, x).slot(j) == w.slot(j),
{
}

/// Two cells that touch the same food item in one feeding stage share one
/// credit: the first eats, the second finds nothing.
pub proof fn law_contested_food(w: WorldView, a: Entity, b: Entity, x: Entity)
    requires
        w.is_cell(a as int),
        w.is_food(x as int),
    ensures
        feeding(
            w,
            seq![
                ContactView { cell: a, overlaps: seq![x] },
                ContactView { cell: b, overlaps: seq![x] },
            ],
        ) == bite(w, a as int, x),
{
    let contacts = seq![
        ContactView { cell: a, overlaps: seq![x] },
        ContactView { cell: b, overlaps: seq![x] },
    ];
    let first = bite(w, a as int, x);
    assert(feeding_upto(w, contacts, 0) == w);
    assert(meal(w, a as int, seq![x], 0) == w);
    assert(meal(w, a as int, seq![x], 1) == first);
    assert(feeding_upto(w, contacts, 1) == first);
    assert(meal(first, b as int, seq![x], 0) == first);
    assert(meal(first, b as int, seq![x], 1) == bite(first, b as int, x));
    law_food_feeds_once(w, a, b, x);
    assert(feeding_upto(w, contacts, 2) == first);
}

/// The number of slots that the division stage adds for the cells among the
/// first `count` slots that hold `SPLIT_ENERGY` or more.
pub open spec fn growth_upto(w: WorldView, count: nat) -> int
    decreases count,
{
    if count == 0 {
        0
    } else {
        growth_upto(w, (count - 1) as nat) + match w.slot(count - 1) {
            SlotView::Cell(c) => if c.energy >= SPLIT_ENERGY {
                2 * (c.flagella_params.len() + c.eye_params.len() + 1)
            } else {
                0
            },
            _ => 0,
        }
    }
}

/// The number of cells among the first `count` slots that hold
/// `SPLIT_ENERGY` or more.
pub open spec fn splitters_upto(w: WorldView, count: nat) -> nat
    decreases count,
{
    if count == 0 {
        0
    } else {
        splitters_upto(w, (count - 1) as nat) + match w.slot(count - 1) {
            SlotView::Cell(c) => if c.energy >= SPLIT_ENERGY {
                1nat
            } else {
                0nat
            },
            _ => 0nat,
        }
    }
}

/// What the division stage has made of the slot `j` once the first `count`
/// slots had their turn.
pub open spec fn divided_slot(w: WorldView, r: WorldView, count: int, j: int) -> bool {
    match w.slots[j] {
        SlotView::Cell(c) => if j < count && c.energy >= SPLIT_ENERGY {
            gone(r, j, c)
        } else {
            r.slot(j) == w.slots[j]
        },
        SlotView::Flagellum(_) => r.slot(j) == w.slots[j] || r.slot(j) is Vacant,
        SlotView::Eye(_) => r.slot(j) == w.slots[j] || r.slot(j) is Vacant,
        _ => r.slot(j) == w.slots[j],
    }
}

proof fn lemma_growth_monotone(w: WorldView, a: nat, b: nat)
    requires
        a <= b,
    ensures
        0 <= growth_upto(w, a) <= growth_upto(w, b),
        0 <= demand_upto(w, a),
    decreases b,
{
    if a < b {
        lemma_growth_monotone(w, a, (b - 1) as nat);
    } else if a > 0 {
        lemma_growth_monotone(w, (a - 1) as nat, (a - 1) as nat);
    }
}

proof fn lemma_dividing_slots(w: WorldView, samples: Seq<i64>, count: nat)
    requires
        w.wf(),
        count <= w.slots.len(),
        w.slots.len() + growth_upto(w, w.slots.len()) <= usize::MAX,
    ensures
        ({
            let r = dividing_upto(w, samples, count).0;
            &&& r.wf()
            &&& r.slots.len() == w.slots.len() + growth_upto(w, count)
            &&& dividing_upto(w, samples, count).1 == rest(samples, demand_upto(w, count))
            &&& forall|j: int| 0 <= j < w.slots.len() ==> divided_slot(w, r, count as int, j)
            &&& r.population() == w.population() + splitters_upto(w, count)
        }),
    decreases count,
{
    if count == 0 {
        assert(rest(samples, 0) =~= samples);
    } else {
        let m = (count - 1) as nat;
        let n = w.slots.len();
        let p = dividing_upto(w, samples, m).0;
        let sp = dividing_upto(w, samples, m).1;
        let r = dividing_upto(w, samples, count).0;
        lemma_dividing_slots(w, samples, m);
        lemma_growth_monotone(w, m, m);
        lemma_growth_monotone(w, count, n);
        assert(divided_slot(w, p, m as int, m as int));
        assert(w.slot_ok(m as int));
        assert((r, dividing_upto(w, samples, count).1) == split_step(p, m as usize, sp));
        if divides(p, m as usize) {
            let c = p.cell(m as int);
            assert(p.slot(m as int) == w.slots[m as int]);
            law_division(p, m as usize, sp);
            crate::samples::lemma_rest_rest(
                samples,
                demand_upto(w, m),
                2 * crate::lifecycle::genome_len(c),
            );
            assert forall|j: int| 0 <= j < n implies divided_slot(w, r, count as int, j) by {
                assert(divided_slot(w, p, m as int, j));
                assert(r.slot(j) == p.slot(j) || r.slot(j) is Vacant);
                match w.slots[j] {
                    SlotView::Cell(cj) => {
                        if j < m && cj.energy >= SPLIT_ENERGY {
                            assert forall|k: int| 0 <= k < cj.flagella.len() implies r.slot(
                                #[trigger] cj.flagella[k] as int,
                            ) is Vacant by {
                                let h = cj.flagella[k] as int;
                                assert(w.slot_ok(j));
                                assert(w.owns_flagellum(j, cj.flagella[k] as int));
                                assert(p.slot(h) is Vacant);
                                assert(r.slot(h) == p.slot(h) || r.slot(h) is Vacant);
                            }
                            assert forall|k: int| 0 <= k < cj.eyes.len() implies r.slot(
                                #[trigger] cj.eyes[k] as int,
                            ) is Vacant by {
                                let h = cj.eyes[k] as int;
                                assert(w.slot_ok(j));
                                assert(w.owns_eye(j, cj.eyes[k] as int));
                                assert(p.slot(h) is Vacant);
                                assert(r.slot(h) == p.slot(h) || r.slot(h) is Vacant);
                            }
                        }
                    },
                    _ => {},
                }
            }
        } else {
            assert(w.slots[m as int] is Cell ==> p.slot(m as int) == w.slots[m as int]);
            if let SlotView::Cell(c) = w.slots[m as int] {
                assert(has_room(p, c) || c.energy < SPLIT_ENERGY);
            }
            assert forall|j: int| 0 <= j < n implies divided_slot(w, r, count as int, j) by {
                assert(divided_slot(w, p, m as int, j));
            }
        }
    }
}

/// The division stage as a whole, where the registry can number all the
/// children: every cell that held `SPLIT_ENERGY` or more when the stage
/// began is gone with its organs; every other cell, all food and every
/// vacant slot are as they were; the population has grown by one for each
/// cell that divided; and the stage drew exactly the samples that
/// `mutation_demand` counts.
pub proof fn law_division_stage(w: WorldView, samples: Seq<i64>, j: int)
    requires
        w.wf(),
        w.slots.len() + growth_upto(w, w.slots.len()) <= usize::MAX,
        0 <= j < w.slots.len(),
    ensures
        ({
            let r = dividing(w, samples).0;
            &&& r.wf()
            &&& r.slots.len() == w.slots.len() + growth_upto(w, w.slots.len())
            &&& dividing(w, samples).1 == rest(samples, demand_upto(w, w.slots.len()))
            &&& divided_slot(w, r, w.slots.len() as int, j)
            &&& r.population() == w.population() + splitters_upto(w, w.slots.len())
        }),
{
    lemma_dividing_slots(w, samples, w.slots.len());
}

/// No cell is due to die and to divide at once.
pub proof fn law_death_excludes_division(c: CellView)
    ensures
        !(c.energy < MIN_ENERGY && c.energy >= SPLIT_ENERGY),
{
}

/// How often the removal of the food item `x` had been announced in `w`,
/// plus one if `x` was food in `w` and is no more in `r`.
pub open spec fn removals(w: WorldView, r: WorldView, x: Entity) -> nat {
    occurrences(w.events, Notification::FoodDespawn(FoodDespawnEvent(x))) + if w.is_food(x as int)
        && !r.is_food(x as int) {
        1nat
    } else {
        0nat
    }
}

proof fn lemma_bite_removals(w: WorldView, p: WorldView, cell: int, y: Entity, x: Entity)
    requires
        occurrences(p.events, Notification::FoodDespawn(FoodDespawnEvent(x))) == removals(w, p, x),
        p.is_food(x as int) ==> w.is_food(x as int),
    ensures
        occurrences(bite(p, cell, y).events, Notification::FoodDespawn(FoodDespawnEvent(x)))
            == removals(w, bite(p, cell, y), x),
        bite(p, cell, y).is_food(x as int) ==> w.is_food(x as int),
{
    let r = bite(p, cell, y);
    if p.is_cell(cell) && p.is_food(y as int) {
        let e = Notification::FoodDespawn(FoodDespawnEvent(y));
        assert(r.events == p.events.push(e));
        assert(p.events.push(e).drop_last() =~= p.events);
    }
}

proof fn lemma_meal_removals(
    w: WorldView,
    p: WorldView,
    cell: int,
    overlaps: Seq<Entity>,
    count: nat,
    x: Entity,
)
    requires
        occurrences(p.events, Notification::FoodDespawn(FoodDespawnEvent(x))) == removals(w, p, x),
        p.is_food(x as int) ==> w.is_food(x as int),
    ensures
        occurrences(
            meal(p, cell, overlaps, count).events,
            Notification::FoodDespawn(FoodDespawnEvent(x)),
        ) == removals(w, meal(p, cell, overlaps, count), x),
        meal(p, cell, overlaps, count).is_food(x as int) ==> w.is_food(x as int),
    decreases count,
{
    if count > 0 {
        lemma_meal_removals(w, p, cell, overlaps, (count - 1) as nat, x);
        lemma_bite_removals(
            w,
            meal(p, cell, overlaps, (count - 1) as nat),
            cell,
            overlaps[count - 1],
            x,
        );
    }
}

proof fn lemma_feeding_removals(w: WorldView, contacts: Seq<ContactView>, count: nat, x: Entity)
    ensures
        occurrences(
            feeding_upto(w, contacts, count).events,
            Notification::FoodDespawn(FoodDespawnEvent(x)),
        ) == removals(w, feeding_upto(w, contacts, count), x),
        feeding_upto(w, contacts, count).is_food(x as int) ==> w.is_food(x as int),
    decreases count,
{
    if count > 0 {
        lemma_feeding_removals(w, contacts, (count - 1) as nat, x);
        let c = contacts[count - 1];
        lemma_meal_removals(
            w,
            feeding_upto(w, contacts, (count - 1) as nat),
            c.cell as int,
            c.overlaps,
            c.overlaps.len(),
            x,
        );
    }
}

/// The feeding stage removes a food item once at most, however many cells
/// touch it and however often: its removal is announced exactly once if it
/// was eaten and not at all otherwise, and the stage makes no food.
pub proof fn law_food_is_eaten_once(w: WorldView, contacts: Seq<ContactView>, x: Entity)
    ensures
        occurrences(feeding(w, contacts).events, Notification::FoodDespawn(FoodDespawnEvent(x)))
            == occurrences(w.events, Notification::FoodDespawn(FoodDespawnEvent(x))) + if w.is_food(
            x as int,
        ) && !feeding(w, contacts).is_food(x as int) {
            1nat
        } else {
            0nat
        },
        feeding(w, contacts).is_food(x as int) ==> w.is_food(x as int),
{
    lemma_feeding_removals(w, contacts, contacts.len(), x);
}

proof fn lemma_actuated_slot(
    a: WorldView,
    handles: Seq<Entity>,
    state: Seq<i64>,
    first: int,
    count: nat,
    h: int,
)
    requires
        count <= handles.len(),
    ensures
        actuated(a, handles, state, first, count).slots.len() == a.slots.len(),
        actuated(a, handles, state, first, count).events == a.events,
        !lists_before(handles, count as int, h) ==> actuated(a, handles, state, first, count).slot(h)
            == a.slot(h),
        (actuated(a, handles, state, first, count).slot(h) is Flagellum) == (a.slot(h) is Flagellum),
        !(a.slot(h) is Flagellum) ==> actuated(a, handles, state, first, count).slot(h) == a.slot(h),
    decreases count,
{
    if count > 0 {
        lemma_actuated_slot(a, handles, state, first, (count - 1) as nat, h);
        lemma_actuated_slot(a, handles, state, first, (count - 1) as nat, handles[count - 1] as int);
        if !lists_before(handles, count as int, h) {
            assert(handles[count - 1] != h);
            assert(!lists_before(handles, count - 1, h));
        }
    }
}

proof fn lemma_actuated_pointwise(
    a: WorldView,
    b: WorldView,
    handles: Seq<Entity>,
    state: Seq<i64>,
    first: int,
    count: nat,
    h: int,
)
    requires
        count <= handles.len(),
        a.slot(h) == b.slot(h),
    ensures
        actuated(a, handles, state, first, count).slot(h) == actuated(b, handles, state, first, count).slot(h),
    decreases count,
{
    if count > 0 {
        let k = handles[count - 1] as int;
        lemma_actuated_pointwise(a, b, handles, state, first, (count - 1) as nat, h);
        lemma_actuated_slot(a, handles, state, first, (count - 1) as nat, k);
        lemma_actuated_slot(b, handles, state, first, (count - 1) as nat, k);
        lemma_actuated_slot(a, handles, state, first, (count - 1) as nat, h);
        lemma_actuated_slot(b, handles, state, first, (count - 1) as nat, h);
    }
}

/// Whether the cell `p` of `w` drives the flagellum `j`.
pub open spec fn drives(w: WorldView, p: int, j: int) -> bool {
    w.slot(p) matches SlotView::Cell(c) && lists(c.flagella, j)
}

/// What the thinking stage has made of the slot `j` once the first `count`
/// slots had their turn: a cell is as its own step leaves it, a flagellum is
/// as the step of the cell that drives it leaves it, and nothing else has
/// changed.
pub open spec fn thought_slot(w: WorldView, r: WorldView, count: int, j: int) -> bool {
    match w.slots[j] {
        SlotView::Cell(_) => r.slots[j] == if j < count {
            think_step(w, j).slots[j]
        } else {
            w.slots[j]
        },
        SlotView::Flagellum(f) => match f.parent {
            Some(p) => r.slots[j] == if p < count && drives(w, p as int, j) {
                think_step(w, p as int).slots[j]
            } else {
                w.slots[j]
            },
            None => r.slots[j] == w.slots[j],
        },
        _ => r.slots[j] == w.slots[j],
    }
}

proof fn lemma_think_step_slot(w: WorldView, i: int, j: int)
    requires
        w.wf(),
        0 <= j < w.slots.len(),
    ensures
        think_step(w, i).slots.len() == w.slots.len(),
        j != i && !drives(w, i, j) ==> think_step(w, i).slots[j] == w.slots[j],
        j != i ==> (think_step(w, i).slots[j] is Flagellum) == (w.slots[j] is Flagellum),
        j != i && !(w.slots[j] is Flagellum) ==> think_step(w, i).slots[j] == w.slots[j],
{
    if let SlotView::Cell(c) = w.slot(i) {
        let state = thought(c, looks(w, c.eyes));
        lemma_actuated_slot(w, c.flagella, state, first_output(c), pairs(c), j);
        lemma_actuated_slot(w, c.flagella, state, first_output(c), pairs(c), i);
    }
}

proof fn lemma_thinking_slots(w: WorldView, count: nat)
    requires
        w.wf(),
        count <= w.slots.len(),
    ensures
        thinking_upto(w, count).wf(),
        thinking_upto(w, count).slots.len() == w.slots.len(),
        thinking_upto(w, count).events == w.events,
        forall|j: int|
            0 <= j < w.slots.len() ==> thought_slot(w, thinking_upto(w, count), count as int, j),
    decreases count,
{
    lemma_thinking_upto_wf(w, count);
    if count > 0 {
        let m = (count - 1) as int;
        let n = w.slots.len() as int;
        let p = thinking_upto(w, m as nat);
        let r = thinking_upto(w, count);
        lemma_thinking_slots(w, m as nat);
        lemma_thinking_upto_wf(w, m as nat);
        assert(r == think_step(p, m));
        assert(thought_slot(w, p, m, m));
        assert(w.slot_ok(m));
        match w.slots[m] {
            SlotView::Cell(c) => {
                assert(p.slots[m] == w.slots[m]);
                let timer = ThinkingTimer(c.timer.0.ticked(FIXED_DELTA as u64));
                assert(looks(p, c.eyes) =~= looks(w, c.eyes)) by {
                    assert forall|k: int| 0 <= k < c.eyes.len() implies eye_activation_of(
                        p,
                        c.eyes[k] as int,
                    ) == eye_activation_of(w, c.eyes[k] as int) by {
                        assert(w.owns_eye(m, c.eyes[k] as int));
                        assert(thought_slot(w, p, m, c.eyes[k] as int));
                    }
                }
                let state = thought(c, looks(w, c.eyes));
                let nl = pairs(c);
                let first = first_output(c);
                assert forall|j: int| 0 <= j < n implies thought_slot(w, r, count as int, j) by {
                    assert(thought_slot(w, p, m, j));
                    lemma_think_step_slot(w, m, j);
                    lemma_think_step_slot(p, m, j);
                    if timer.0.finished {
                        lemma_actuated_slot(p, c.flagella, state, first, nl, j);
                        lemma_actuated_slot(w, c.flagella, state, first, nl, j);
                        lemma_actuated_slot(p, c.flagella, state, first, nl, m);
                        lemma_actuated_slot(w, c.flagella, state, first, nl, m);
                        if j != m && lists(c.flagella, j) {
                            let k = choose|k: int| 0 <= k < c.flagella.len() && c.flagella[k] == j;
                            assert(w.owns_flagellum(m, c.flagella[k] as int));
                            assert(p.slots[j] == w.slots[j]);
                            lemma_actuated_pointwise(p, w, c.flagella, state, first, nl, j);
                        }
                    }
                    if j != m {
                        if let SlotView::Flagellum(f) = w.slots[j] {
                            if let Some(q) = f.parent {
                                if q != m && drives(w, m, j) {
                                    let k = choose|k: int|
                                        0 <= k < c.flagella.len() && c.flagella[k] == j;
                                    assert(w.owns_flagellum(m, c.flagella[k] as int));
                                }
                            } else if drives(w, m, j) {
                                let k = choose|k: int|
                                    0 <= k < c.flagella.len() && c.flagella[k] == j;
                                assert(w.owns_flagellum(m, c.flagella[k] as int));
                            }
                        } else if drives(w, m, j) {
                            let k = choose|k: int| 0 <= k < c.flagella.len() && c.flagella[k] == j;
                            assert(w.owns_flagellum(m, c.flagella[k] as int));
                        }
                    }
                }
            },
            _ => {
                if let SlotView::Flagellum(f) = w.slots[m] {
                    if let Some(q) = f.parent {
                        lemma_think_step_slot(w, q as int, m);
                    }
                }
                assert(!(p.slots[m] is Cell));
                assert(r == p);
                assert forall|j: int| 0 <= j < n implies thought_slot(w, r, count as int, j) by {
                    assert(thought_slot(w, p, m, j));
                }
            },
        }
    }
}

/// The thinking stage treats every cell on its own: whatever the order of
/// the handles, a cell and the flagella that it drives end the stage as the
/// thinking step of that cell alone would leave them, and the stage changes
/// nothing else and announces nothing.
pub proof fn law_thinking_is_local(w: WorldView, j: int)
    requires
        w.wf(),
        0 <= j < w.slots.len(),
    ensures
        thinking(w).wf(),
        thinking(w).slots.len() == w.slots.len(),
        thinking(w).events == w.events,
        thought_slot(w, thinking(w), w.slots.len() as int, j),
        w.slots[j] is Cell ==> thinking(w).slots[j] == think_step(w, j).slots[j],
{
    lemma_thinking_slots(w, w.slots.len());
    lemma_think_step_slot(w, j, j);
    assert(thought_slot(w, thinking(w), w.slots.len() as int, j));
}

proof fn lemma_scattered_keeps(w: WorldView, samples: Seq<i64>, sigma: i64, count: nat, j: int)
    requires
        0 <= j < w.slots.len(),
    ensures
        scattered(w, samples, sigma, count).slots.len() == w.slots.len() + count,
        scattered(w, samples, sigma, count).slots[j] == w.slots[j],
    decreases count,
{
    if count > 0 {
        lemma_scattered_keeps(w, samples, sigma, (count - 1) as nat, j);
    }
}

proof fn lemma_meal_spares(w: WorldView, cell: int, overlaps: Seq<Entity>, count: nat, i: int)
    requires
        w.is_cell(i),
        cell != i,
    ensures
        meal(w, cell, overlaps, count).slot(i) == w.slot(i),
    decreases count,
{
    if count > 0 {
        lemma_meal_spares(w, cell, overlaps, (count - 1) as nat, i);
    }
}

proof fn lemma_feeding_spares(w: WorldView, contacts: Seq<ContactView>, count: nat, i: int)
    requires
        w.is_cell(i),
        count <= contacts.len(),
        forall|k: int| 0 <= k < contacts.len() ==> (#[trigger] contacts[k]).cell != i,
    ensures
        feeding_upto(w, contacts, count).slot(i) == w.slot(i),
    decreases count,
{
    if count > 0 {
        lemma_feeding_spares(w, contacts, (count - 1) as nat, i);
        let c = contacts[count - 1];
        lemma_meal_spares(
            feeding_upto(w, contacts, (count - 1) as nat),
            c.cell as int,
            c.overlaps,
            c.overlaps.len(),
            i,
        );
    }
}

/// The feeding stage leaves a cell as it was if no contact names it.
pub proof fn law_feeding_spares_the_untouched(w: WorldView, contacts: Seq<ContactView>, i: Entity)
    requires
        w.is_cell(i as int),
        forall|k: int| 0 <= k < contacts.len() ==> (#[trigger] contacts[k]).cell != i,
    ensures
        feeding(w, contacts).slot(i as int) == w.slot(i as int),
{
    lemma_feeding_spares(w, contacts, contacts.len(), i as int);
}

/// The registry as the division stage of a fixed tick finds it.
pub open spec fn before_division(
    w: WorldView,
    timer: FoodTimer,
    contacts: Seq<ContactView>,
    sightings: Seq<SightingView>,
    samples: Seq<i64>,
) -> WorldView {
    aging(
        thinking(
            sensed(
                feeding(scattered(w, samples, TRICKLE_SIGMA, food_due(timer)), contacts),
                sightings,
            ),
        ),
    )
}

/// One fixed tick, seen from a cell that touches nothing in it, where the
/// registry can number all that the tick adds. A cell that held `energy` when
/// the tick began has lost exactly `FIXED_DELTA` by its end and keeps its
/// handle, if that leaves it `MIN_ENERGY` or more and less than
/// `SPLIT_ENERGY`; it is gone from the registry otherwise, dead or divided.
pub proof fn law_tick_energy(
    w: WorldView,
    timer: FoodTimer,
    contacts: Seq<ContactView>,
    sightings: Seq<SightingView>,
    samples: Seq<i64>,
    i: Entity,
)
    requires
        w.wf(),
        w.is_cell(i as int),
        forall|k: int| 0 <= k < contacts.len() ==> (#[trigger] contacts[k]).cell != i,
        ({
            let b = before_division(w, timer, contacts, sightings, samples);
            b.slots.len() + growth_upto(b, b.slots.len()) <= usize::MAX
        }),
    ensures
        ({
            let r = ticked(w, timer, contacts, sightings, samples).0;
            let left = w.cell(i as int).energy - FIXED_DELTA;
            &&& r.wf()
            &&& MIN_ENERGY <= left < SPLIT_ENERGY ==> r.is_cell(i as int) && r.cell(
                i as int,
            ).energy == left
            &&& left < MIN_ENERGY || left >= SPLIT_ENERGY ==> r.slot(i as int) is Vacant
        }),
{
    let c = w.cell(i as int);
    let due = food_due(timer);
    let w1 = scattered(w, samples, TRICKLE_SIGMA, due);
    let w2 = feeding(w1, contacts);
    let w3 = sensed(w2, sightings);
    let w4 = thinking(w3);
    let w5 = aging(w4);
    let s1 = rest(samples, 2 * (due as int));
    lemma_scattered_keeps(w, samples, TRICKLE_SIGMA, due, i as int);
    crate::feeding::lemma_scattered_wf(w, samples, TRICKLE_SIGMA, due);
    crate::feeding::lemma_feeding_upto_wf(w1, contacts, contacts.len());
    lemma_feeding_spares(w1, contacts, contacts.len(), i as int);
    crate::sensing::lemma_sensed_wf(w2, sightings);
    assert(w3.slots[i as int] == w.slots[i as int]);
    lemma_thinking_slots(w3, w3.slots.len());
    lemma_think_step_slot(w3, i as int, i as int);
    assert(thought_slot(w3, w4, w3.slots.len() as int, i as int));
    let state = thought(c, looks(w3, c.eyes));
    lemma_actuated_slot(w3, c.flagella, state, first_output(c), pairs(c), i as int);
    assert(w4.slots[i as int] is Cell);
    assert(w4.cell(i as int).energy == c.energy);
    lemma_growth_monotone(w5, 0, w5.slots.len());
    lemma_aging_upto_wf(w4, w4.slots.len());
    lemma_aging_slots(w4, w4.slots.len());
    assert(aged_slot(w4, w5, w4.slots.len() as int, i as int));
    lemma_dividing_slots(w5, s1, w5.slots.len());
    assert(divided_slot(w5, dividing(w5, s1).0, w5.slots.len() as int, i as int));
}

proof fn lemma_dividing_upto_wf(w: WorldView, samples: Seq<i64>, count: nat)
    requires
        w.wf(),
    ensures
        dividing_upto(w, samples, count).0.wf(),
    decreases count,
{
    if count > 0 {
        let p = dividing_upto(w, samples, (count - 1) as nat);
        lemma_dividing_upto_wf(w, samples, (count - 1) as nat);
        if divides(p.0, (count - 1) as usize) {
            law_division(p.0, (count - 1) as usize, p.1);
        }
    }
}

/// The invariant of the registry holds at all times: every stage keeps it,
/// and so does a whole fixed tick, whatever the spatial index reports and
/// whatever the samples are.
pub proof fn law_soundness_is_kept(
    w: WorldView,
    timer: FoodTimer,
    contacts: Seq<ContactView>,
    sightings: Seq<SightingView>,
    samples: Seq<i64>,
)
    requires
        w.wf(),
    ensures
        scattered(w, samples, TRICKLE_SIGMA, food_due(timer)).wf(),
        feeding(w, contacts).wf(),
        sensed(w, sightings).wf(),
        thinking(w).wf(),
        aging(w).wf(),
        dividing(w, samples).0.wf(),
        ticked(w, timer, contacts, sightings, samples).0.wf(),
{
    let due = food_due(timer);
    let w1 = scattered(w, samples, TRICKLE_SIGMA, due);
    let w2 = feeding(w1, contacts);
    let w3 = sensed(w2, sightings);
    let w4 = thinking(w3);
    let w5 = aging(w4);
    crate::feeding::lemma_scattered_wf(w, samples, TRICKLE_SIGMA, due);
    crate::feeding::lemma_feeding_upto_wf(w, contacts, contacts.len());
    crate::sensing::lemma_sensed_wf(w, sightings);
    lemma_thinking_upto_wf(w, w.slots.len());
    lemma_aging_upto_wf(w, w.slots.len());
    lemma_dividing_upto_wf(w, samples, w.slots.len());
    crate::feeding::lemma_feeding_upto_wf(w1, contacts, contacts.len());
    crate::sensing::lemma_sensed_wf(w2, sightings);
    lemma_thinking_upto_wf(w3, w3.slots.len());
    lemma_aging_upto_wf(w4, w4.slots.len());
    lemma_dividing_upto_wf(w5, rest(samples, 2 * (due as int)), w5.slots.len());
}

/// Eyes sense independently of each other: what the spatial index reports
/// for one eye has no bearing on another, and the order in which two reports
/// for the same eye arrive does not matter.
pub proof fn law_eyes_are_independent(
    w: WorldView,
    sightings: Seq<SightingView>,
    a: SightingView,
    b: SightingView,
    e: Entity,
)
    ensures
        a.eye != e ==> eye_level(w, sightings.push(a), e as int) == eye_level(
            w,
            sightings,
            e as int,
        ),
        eye_level(w, sightings.push(a).push(b), e as int) == eye_level(
            w,
            sightings.push(b).push(a),
            e as int,
        ),
{
    assert(sightings.push(a).drop_last() =~= sightings);
    assert(sightings.push(b).drop_last() =~= sightings);
    assert(sightings.push(a).push(b).drop_last() =~= sightings.push(a));
    assert(sightings.push(b).push(a).drop_last() =~= sightings.push(b));
    let base = eye_level(w, sightings, e as int);
    let with_a = eye_level(w, sightings.push(a), e as int);
    let with_b = eye_level(w, sightings.push(b), e as int);
    assert(with_a == if a.eye == e {
        max_int(base, brightest(w, a.origin, a.overlaps))
    } else {
        base
    });
    assert(with_b == if b.eye == e {
        max_int(base, brightest(w, b.origin, b.overlaps))
    } else {
        base
    });
    assert(eye_level(w, sightings.push(a).push(b), e as int) == if b.eye == e {
        max_int(with_a, brightest(w, b.origin, b.overlaps))
    } else {
        with_a
    });
    assert(eye_level(w, sightings.push(b).push(a), e as int) == if a.eye == e {
        max_int(with_b, brightest(w, a.origin, a.overlaps))
    } else {
        with_b
    });
}

} // verus!
