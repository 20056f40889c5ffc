//! The decision engine: a recurrent controller that advances on its own
//! cadence, reads the eyes of its cell and drives the flagella.

use vstd::prelude::*;
use crate::fixed::{
    all_in_range, floor_div, in_range, lemma_sigmoid_bounds, lemma_tanh_bounds, saturate,
    saturating, sigmoid, sigmoid_spec, tanh, tanh_spec, LIMIT, ONE,
};
use crate::params::FIXED_DELTA;
use crate::timer::ThinkingTimer;
use crate::world::{
    evolves, lemma_evolves_wf, slot_evolves, Cell, CellView, Entity, Flagellum, Slot, SlotView,
    World, WorldView,
};

verus! {

/// The weighted sum that the first `count` units send to unit `j`.
pub open spec fn drive(state: Seq<i64>, weights: Seq<i64>, j: int, count: nat) -> int
    decreases count,
{
    if count == 0 {
        0
    } else {
        drive(state, weights, j, (count - 1) as nat) + state[count - 1] * weights[(count - 1)
            * state.len() + j]
    }
}

/// The state once the activations of the eyes were written into its leading
/// units.
pub open spec fn injected(state: Seq<i64>, looks: Seq<i64>) -> Seq<i64> {
    Seq::new(
        state.len(),
        |j: int|
            if j < looks.len() {
                looks[j]
            } else {
                state[j]
            },
    )
}

/// Unit `j` after the recurrent update `state * weights + biases`, saturated.
pub open spec fn renewed(c: CellView, state: Seq<i64>, j: int) -> int {
    saturate(drive(state, c.weights, j, state.len()) / (ONE as int) + c.biases[j])
}

/// Unit `j` after the activation function of its segment: the leading
/// segment, as long as the cell has flagella, is left as it is; the middle
/// segment takes the hyperbolic tangent; the trailing segment, as long as the
/// cell has eyes, takes the logistic function.
pub open spec fn settled(c: CellView, raw: int, j: int) -> int {
    if j < c.flagella.len() {
        raw
    } else if j < c.state.len() - c.eyes.len() {
        tanh_spec(raw)
    } else {
        sigmoid_spec(raw)
    }
}

/// The state of a cell after one firing of its controller, given the
/// activations of its eyes.
pub open spec fn thought(c: CellView, looks: Seq<i64>) -> Seq<i64> {
    let s = injected(c.state, looks);
    Seq::new(c.state.len(), |j: int| settled(c, renewed(c, s, j), j) as i64)
}

/// The activation of the eye `id`; zero if `id` refers to no live eye.
pub open spec fn eye_activation_of(w: WorldView, id: int) -> i64 {
    match w.slot(id) {
        SlotView::Eye(e) => e.activation,
        _ => 0,
    }
}

/// The activations of the eyes `eyes`, in their order.
pub open spec fn looks(w: WorldView, eyes: Seq<Entity>) -> Seq<i64> {
    Seq::new(eyes.len(), |k: int| eye_activation_of(w, eyes[k] as int))
}

/// The number of flagella that are paired with a unit of the trailing
/// segment: pairing stops at the shorter of the two.
pub open spec fn pairs(c: CellView) -> nat {
    if c.flagella.len() <= c.eyes.len() {
        c.flagella.len()
    } else {
        c.eyes.len()
    }
}

/// The index of the first unit of the trailing segment.
pub open spec fn first_output(c: CellView) -> int {
    c.state.len() - c.eyes.len()
}

/// The registry once the first `count` of `handles` were given the units of
/// `state` from `first` on, one each, in order. A handle that refers to no
/// live flagellum is passed over.
pub open spec fn actuated(
    w: WorldView,
    handles: Seq<Entity>,
    state: Seq<i64>,
    first: int,
    count: nat,
) -> WorldView
    decreases count,
{
    if count == 0 {
        w
    } else {
        let p = actuated(w, handles, state, first, (count - 1) as nat);
        let h = handles[count - 1] as int;
        match p.slot(h) {
            SlotView::Flagellum(f) => p.put(
                h,
                SlotView::Flagellum(Flagellum { activation: state[first + count - 1], ..f }),
            ),
            _ => p,
        }
    }
}

/// The registry after the controller of the cell `i` was given one fixed
/// tick: its timer advances, and if the timer fires, the cell thinks once and
/// its flagella take the trailing units of the new state. Any handle that
/// refers to no live cell is left alone.
pub open spec fn think_step(w: WorldView, i: int) -> WorldView {
    match w.slot(i) {
        SlotView::Cell(c) => {
            let timer = ThinkingTimer(c.timer.0.ticked(FIXED_DELTA as u64));
            if timer.0.finished {
                let state = thought(c, looks(w, c.eyes));
                actuated(w, c.flagella, state, first_output(c), pairs(c)).put(
                    i,
                    SlotView::Cell(CellView { state, timer, ..c }),
                )
            } else {
                w.put(i, SlotView::Cell(CellView { timer, ..c }))
            }
        },
        _ => w,
    }
}

/// The registry once the first `count` slots had their thinking step.
pub open spec fn thinking_upto(w: WorldView, count: nat) -> WorldView
    decreases count,
{
    if count == 0 {
        w
    } else {
        think_step(thinking_upto(w, (count - 1) as nat), count - 1)
    }
}

/// The registry after the thinking stage.
pub open spec fn thinking(w: WorldView) -> WorldView {
    thinking_upto(w, w.slots.len())
}

/// The weighted sum of `count` confined values lies within `count` times
/// the square of `LIMIT`.
pub proof fn lemma_drive_bound(state: Seq<i64>, weights: Seq<i64>, j: int, count: nat)
    requires
        all_in_range(state),
        all_in_range(weights),
        count <= state.len(),
        0 <= j < state.len(),
        weights.len() == state.len() * state.len(),
    ensures
        -count * (LIMIT * LIMIT) <= drive(state, weights, j, count) <= count * (LIMIT * LIMIT),
    decreases count,
{
    if count > 0 {
        let i = count - 1;
        let n = state.len() as int;
        lemma_drive_bound(state, weights, j, i as nat);
        assert(0 <= i * n + j < n * n) by (nonlinear_arith)
            requires
                0 <= i < n,
                0 <= j < n,
        ;
        let a = state[i] as int;
        let b = weights[i * n + j] as int;
        assert(-(LIMIT * LIMIT) <= a * b <= LIMIT * LIMIT) by (nonlinear_arith)
            requires
                -LIMIT <= a <= LIMIT,
                -LIMIT <= b <= LIMIT,
        ;
        assert(count * (LIMIT * LIMIT) == i * (LIMIT * LIMIT) + LIMIT * LIMIT)
            by (nonlinear_arith)
            requires
                count == i + 1,
        ;
    }
}

/// An activation function leaves a confined value confined, and the
/// logistic function leaves it between zero and one.
pub proof fn lemma_settled_in_range(c: CellView, raw: int, j: int)
    requires
        in_range(raw),
    ensures
        in_range(settled(c, raw, j)),
        j >= c.state.len() - c.eyes.len() && j >= c.flagella.len() ==> 0 <= settled(c, raw, j)
            <= ONE,
{
    lemma_tanh_bounds(raw);
    lemma_sigmoid_bounds(raw);
}

/// A firing keeps the shape of the cell, and its trailing units lie between
/// zero and one.
pub proof fn lemma_thought_shape(c: CellView, looks: Seq<i64>)
    requires
        c.shape_ok(),
    ensures
        thought(c, looks).len() == c.state.len(),
        all_in_range(thought(c, looks)),
        (CellView { state: thought(c, looks), ..c }).shape_ok(),
        forall|j: int|
            c.state.len() - c.eyes.len() <= j < c.state.len() ==> 0 <= (#[trigger] thought(
                c,
                looks,
            )[j]) <= ONE,
{
    let s = injected(c.state, looks);
    let t = thought(c, looks);
    assert forall|j: int| 0 <= j < t.len() implies in_range(#[trigger] t[j] as int) && (c.state.len()
        - c.eyes.len() <= j ==> 0 <= t[j] <= ONE) by {
        lemma_settled_in_range(c, renewed(c, s, j), j);
    }
}

/// Driving flagella changes nothing but the activations of live flagella.
pub proof fn lemma_actuated(
    w: WorldView,
    handles: Seq<Entity>,
    state: Seq<i64>,
    first: int,
    count: nat,
)
    requires
        count <= handles.len(),
        0 <= first,
        first + count <= state.len(),
        forall|j: int| first <= j < state.len() ==> 0 <= #[trigger] state[j] <= ONE,
    ensures
        actuated(w, handles, state, first, count).events == w.events,
        evolves(w, actuated(w, handles, state, first, count)),
        forall|j: int|
            0 <= j < w.slots.len() && !(w.slots[j] is Flagellum) ==> #[trigger] actuated(
                w,
                handles,
                state,
                first,
                count,
            ).slots[j] == w.slots[j],
        forall|j: int|
            0 <= j < w.slots.len() && (w.slots[j] is Flagellum) ==> ((#[trigger] actuated(
                w,
                handles,
                state,
                first,
                count,
            ).slots[j]) is Flagellum),
    decreases count,
{
    if count > 0 {
        let p = actuated(w, handles, state, first, (count - 1) as nat);
        lemma_actuated(w, handles, state, first, (count - 1) as nat);
        let r = actuated(w, handles, state, first, count);
        let h = handles[count - 1] as int;
        assert forall|j: int| 0 <= j < w.slots.len() implies slot_evolves(
            #[trigger] w.slots[j],
            r.slots[j],
        ) by {
            assert(slot_evolves(w.slots[j], p.slots[j]));
        }
    }
}

/// In a sound registry the activation of an eye lies between zero and one.
pub proof fn lemma_eye_activation_bounds(w: WorldView, id: int)
    requires
        w.wf(),
    ensures
        0 <= eye_activation_of(w, id) <= ONE,
{
    if 0 <= id < w.slots.len() {
        assert(w.slot_ok(id));
    }
}

/// A thinking step keeps the registry sound, gives out no handle and
/// announces nothing.
pub proof fn lemma_think_step_wf(w: WorldView, i: int)
    requires
        w.wf(),
    ensures
        think_step(w, i).wf(),
        think_step(w, i).slots.len() == w.slots.len(),
        think_step(w, i).events == w.events,
        evolves(w, think_step(w, i)),
{
    let r = think_step(w, i);
    if let SlotView::Cell(c) = w.slot(i) {
        assert(w.slot_ok(i));
        let timer = ThinkingTimer(c.timer.0.ticked(FIXED_DELTA as u64));
        if timer.0.finished {
            let state = thought(c, looks(w, c.eyes));
            lemma_thought_shape(c, looks(w, c.eyes));
            lemma_actuated(w, c.flagella, state, first_output(c), pairs(c));
            let p = actuated(w, c.flagella, state, first_output(c), pairs(c));
            assert forall|j: int| 0 <= j < w.slots.len() implies slot_evolves(
                #[trigger] w.slots[j],
                r.slots[j],
            ) by {
                assert(slot_evolves(w.slots[j], p.slots[j]));
            }
        } else {
            assert forall|j: int| 0 <= j < w.slots.len() implies slot_evolves(
                #[trigger] w.slots[j],
                r.slots[j],
            ) by {}
        }
    } else {
        assert forall|j: int| 0 <= j < w.slots.len() implies slot_evolves(
            #[trigger] w.slots[j],
            r.slots[j],
        ) by {}
    }
    lemma_evolves_wf(w, r);
}

/// The thinking stage keeps the registry sound, gives out no handle and
/// announces nothing.
pub proof fn lemma_thinking_upto_wf(w: WorldView, count: nat)
    requires
        w.wf(),
    ensures
        thinking_upto(w, count).wf(),
        thinking_upto(w, count).slots.len() == w.slots.len(),
        thinking_upto(w, count).events == w.events,
    decreases count,
{
    if count > 0 {
        lemma_thinking_upto_wf(w, (count - 1) as nat);
        lemma_think_step_wf(thinking_upto(w, (count - 1) as nat), count - 1);
    }
}

/// The activations of the eyes of a cell, in their order.
fn gaze(world: &World, eyes: &Vec<Entity>) -> (seen: Vec<i64>)
    ensures
        seen@ == looks(world@, eyes@),
{
    let mut seen: Vec<i64> = Vec::new();
    let mut k: usize = 0;
    while k < eyes.len()
        invariant
            k <= eyes.len(),
            seen@ == looks(world@, eyes@.take(k as int)),
        decreases eyes.len() - k,
    {
        let h = eyes[k];
        let a: i64 = if h < world.slots.len() {
            match &world.slots[h] {
                Slot::Eye(e) => e.activation,
                _ => 0,
            }
        } else {
            0
        };
        seen.push(a);
        k = k + 1;
        assert(seen@ =~= looks(world@, eyes@.take(k as int)));
    }
    assert(eyes@.take(k as int) =~= eyes@);
    seen
}

/// One firing of the controller of `c`, given the activations of its eyes.
pub fn advance(c: &Cell, seen: &Vec<i64>) -> (next: Vec<i64>)
    requires
        c@.shape_ok(),
        seen@.len() == c@.eyes.len(),
        forall|k: int| 0 <= k < seen@.len() ==> 0 <= #[trigger] seen@[k] <= ONE,
    ensures
        next@ == thought(c@, seen@),
{
    let n = c.state.len();
    let nl = c.flagella.len();
    let ne = c.eyes.len();
    let mut input: Vec<i64> = Vec::new();
    let mut j: usize = 0;
    while j < n
        invariant
            j <= n,
            n == c.state@.len(),
            ne == seen@.len(),
            input@ == injected(c.state@, seen@).take(j as int),
        decreases n - j,
    {
        let v: i64 = if j < ne {
            seen[j]
        } else {
            c.state[j]
        };
        input.push(v);
        j = j + 1;
        assert(input@ =~= injected(c.state@, seen@).take(j as int));
    }
    let ghost s = injected(c.state@, seen@);
    assert(input@ =~= s);
    assert(all_in_range(s));
    let total = c.weights.len();
    assert(n * n == total);
    let mut next: Vec<i64> = Vec::new();
    let mut j: usize = 0;
    while j < n
        invariant
            j <= n,
            n == c.state@.len(),
            nl == c.flagella@.len(),
            ne == c.eyes@.len(),
            c@.shape_ok(),
            n * n == total,
            input@ == s,
            s == injected(c.state@, seen@),
            all_in_range(s),
            next@ == thought(c@, seen@).take(j as int),
        decreases n - j,
    {
        let mut acc: i128 = 0;
        let mut i: usize = 0;
        while i < n
            invariant
                i <= n,
                j < n,
                n == s.len(),
                n * n == c.weights@.len(),
                n * n == total,
                input@ == s,
                all_in_range(s),
                all_in_range(c.weights@),
                acc == drive(s, c.weights@, j as int, i as nat),
            decreases n - i,
        {
            proof {
                lemma_drive_bound(s, c.weights@, j as int, i as nat);
                lemma_drive_bound(s, c.weights@, j as int, (i + 1) as nat);
                assert(0 <= i * n + j < n * n) by (nonlinear_arith)
                    requires
                        0 <= i < n,
                        0 <= j < n,
                ;
                assert(n < 0x1_0000_0000) by (nonlinear_arith)
                    requires
                        n * n <= usize::MAX,
                        usize::MAX <= 0xffff_ffff_ffff_ffff,
                        0 <= n,
                ;
                assert((i + 1) * (LIMIT * LIMIT) <= 0x1_0000_0000 * (LIMIT * LIMIT))
                    by (nonlinear_arith)
                    requires
                        i + 1 <= 0x1_0000_0000,
                ;
                assert(i * (LIMIT * LIMIT) <= 0x1_0000_0000 * (LIMIT * LIMIT))
                    by (nonlinear_arith)
                    requires
                        0 <= i <= 0x1_0000_0000,
                ;
            }
            let a: i128 = input[i] as i128;
            let b: i128 = c.weights[i * n + j] as i128;
            assert(-(LIMIT * LIMIT) <= a * b <= LIMIT * LIMIT) by (nonlinear_arith)
                requires
                    -LIMIT <= a <= LIMIT,
                    -LIMIT <= b <= LIMIT,
            ;
            acc = acc + a * b;
            i = i + 1;
        }
        proof {
            lemma_drive_bound(s, c.weights@, j as int, n as nat);
            assert(n < 0x1_0000_0000) by (nonlinear_arith)
                requires
                    n * n <= usize::MAX,
                    usize::MAX <= 0xffff_ffff_ffff_ffff,
                    0 <= n,
            ;
            assert(n * (LIMIT * LIMIT) <= 0x1_0000_0000 * (LIMIT * LIMIT)) by (nonlinear_arith)
                requires
                    0 <= n <= 0x1_0000_0000,
            ;
        }
        let q: i128 = floor_div(acc, ONE as i128);
        assert(-0x1_0000_0000 * (LIMIT * LIMIT) <= q <= 0x1_0000_0000 * (LIMIT * LIMIT)) by {
            vstd::arithmetic::div_mod::lemma_fundamental_div_mod(acc as int, ONE as int);
            vstd::arithmetic::div_mod::lemma_mod_bound(acc as int, ONE as int);
        }
        let raw: i64 = saturating(q + c.biases[j] as i128);
        assert(raw == renewed(c@, s, j as int));
        let v: i64 = if j < nl {
            raw
        } else if j < n - ne {
            tanh(raw)
        } else {
            sigmoid(raw)
        };
        assert(v == settled(c@, raw as int, j as int));
        next.push(v);
        j = j + 1;
        assert(next@ =~= thought(c@, seen@).take(j as int));
    }
    assert(next@ =~= thought(c@, seen@));
    next
}

/// Gives the controller of one cell one fixed tick.
pub fn think(world: &mut World, cell_entity: Entity)
    requires
        old(world).wf(),
    ensures
        final(world).wf(),
        final(world)@ == think_step(old(world)@, cell_entity as int),
{
    if !world.is_cell(cell_entity) {
        return ;
    }
    let ghost w0 = world@;
    let ghost c0 = w0.cell(cell_entity as int);
    let mut taken = Slot::Vacant;
    std::mem::swap(&mut world.slots[cell_entity], &mut taken);
    if let Slot::Cell(mut c) = taken {
        assert(c@ == c0);
        assert(w0.slot_ok(cell_entity as int));
        c.timer.0.tick(FIXED_DELTA as u64);
        if c.timer.0.finished() {
            let seen = gaze(world, &c.eyes);
            proof {
                assert(seen@ =~= looks(w0, c0.eyes));
                assert forall|k: int| 0 <= k < seen@.len() implies 0 <= #[trigger] seen@[k]
                    <= ONE by {
                    lemma_eye_activation_bounds(w0, c0.eyes[k] as int);
                }
                assert(c@.shape_ok());
            }
            let next = advance(&c, &seen);
            let ghost state = next@;
            proof {
                lemma_thought_shape(c0, seen@);
                assert(state == thought(c0, looks(w0, c0.eyes)));
            }
            let n = next.len();
            let ne = c.eyes.len();
            let nl = if c.flagella.len() <= ne {
                c.flagella.len()
            } else {
                ne
            };
            let ghost first = first_output(c0);
            let mut k: usize = 0;
            while k < nl
                invariant
                    k <= nl,
                    nl == pairs(c0),
                    ne == c0.eyes.len(),
                    first == n - ne,
                    c.flagella@ == c0.flagella,
                    next@ == state,
                    n == state.len(),
                    ne <= n,
                    cell_entity < w0.slots.len(),
                    w0.slots[cell_entity as int] is Cell,
                    forall|j: int| first <= j < state.len() ==> 0 <= #[trigger] state[j] <= ONE,
                    world@.events == w0.events,
                    world@.slots.len() == w0.slots.len(),
                    actuated(w0, c0.flagella, state, first, k as nat).slots.len() == w0.slots.len(),
                    forall|j: int|
                        0 <= j < w0.slots.len() && j != cell_entity ==> #[trigger] world@.slots[j]
                            == actuated(w0, c0.flagella, state, first, k as nat).slots[j],
                decreases nl - k,
            {
                let h = c.flagella[k];
                let ghost before = world@;
                proof {
                    lemma_actuated(w0, c0.flagella, state, first, k as nat);
                    lemma_actuated(w0, c0.flagella, state, first, (k + 1) as nat);
                }
                if h < world.slots.len() {
                    match &mut world.slots[h] {
                        Slot::Flagellum(f) => {
                            f.activation = next[n - ne + k];
                        },
                        _ => {},
                    }
                }
                k = k + 1;
                proof {
                    let p = actuated(w0, c0.flagella, state, first, (k - 1) as nat);
                    assert forall|j: int|
                        0 <= j < w0.slots.len() && j != cell_entity implies #[trigger] world@.slots[j]
                        == actuated(w0, c0.flagella, state, first, k as nat).slots[j] by {
                        assert(before.slots[j] == p.slots[j]);
                    }
                }
            }
            c.state = next;
            let ghost after = c@;
            let ghost mid = world@;
            world.slots[cell_entity] = Slot::Cell(c);
            proof {
                let p = actuated(w0, c0.flagella, state, first, nl as nat);
                let timer = ThinkingTimer(c0.timer.0.ticked(FIXED_DELTA as u64));
                lemma_actuated(w0, c0.flagella, state, first, nl as nat);
                assert(after.timer == timer);
                assert(after == CellView { state, timer, ..c0 });
                assert(think_step(w0, cell_entity as int) == p.put(
                    cell_entity as int,
                    SlotView::Cell(after),
                ));
                assert(world@.slots[cell_entity as int] == SlotView::Cell(after));
                assert forall|j: int| 0 <= j < w0.slots.len() implies world@.slots[j]
                    == think_step(w0, cell_entity as int).slots[j] by {
                    if j != cell_entity {
                        assert(mid.slots[j] == p.slots[j]);
                        assert(world@.slots[j] == mid.slots[j]);
                    }
                }
                assert(world@.slots =~= think_step(w0, cell_entity as int).slots);
            }
        } else {
            world.slots[cell_entity] = Slot::Cell(c);
            proof {
                assert(world@.slots =~= think_step(w0, cell_entity as int).slots);
            }
        }
        proof {
            lemma_think_step_wf(w0, cell_entity as int);
        }
    }
}

/// The thinking stage: gives the controller of every cell one fixed tick, in
/// the order of the handles.
pub fn cell_thinking(world: &mut World)
    requires
        old(world).wf(),
    ensures
        final(world).wf(),
        final(world)@ == thinking(old(world)@),
{
    let ghost w0 = world@;
    let n = world.slots.len();
    let mut i: usize = 0;
    while i < n
        invariant
            i <= n,
            n == w0.slots.len(),
            w0.wf(),
            world.wf(),
            world@ == thinking_upto(w0, i as nat),
        decreases n - i,
    {
        proof {
            lemma_thinking_upto_wf(w0, i as nat);
        }
        think(world, i);
        i = i + 1;
    }
}

} // verus!
