//! Sensing: how strongly each eye sees the food inside its vision cone.
//!
//! The caller learns from its spatial index which entities overlap the cone
//! of an eye, and where the eye stands; what the eye makes of them is decided
//! here. An eye that no sighting names sees nothing.

use vstd::prelude::*;
use crate::fixed::{
    abs_int, clamp_int, isqrt, lemma_root_dominates, lemma_root_exists, root, span, ONE,
};
use crate::params::VISION_RANGE;
use crate::world::{lemma_evolves_wf, Entity, Eye, Point, Slot, SlotView, World, WorldView};

verus! {

/// What the spatial index reports for one eye: where the eye stands, and the
/// entities that overlap its vision cone.
#[derive(Debug)]
pub struct Sighting {
    pub eye: Entity,
    pub origin: Point,
    pub overlaps: Vec<Entity>,
}

/// The model of a sighting.
pub struct SightingView {
    pub eye: Entity,
    pub origin: Point,
    pub overlaps: Seq<Entity>,
}

impl View for Sighting {
    type V = SightingView;

    open spec fn view(&self) -> SightingView {
        SightingView { eye: self.eye, origin: self.origin, overlaps: self.overlaps@ }
    }
}

/// The models of a list of sightings.
pub open spec fn sightings_view(v: Seq<Sighting>) -> Seq<SightingView> {
    Seq::new(v.len(), |i: int| v[i]@)
}

/// The greater of two numbers.
pub open spec fn max_int(a: int, b: int) -> int {
    if a < b {
        b
    } else {
        a
    }
}

/// The distance between two points, rounded down.
pub open spec fn distance(a: Point, b: Point) -> int {
    root((a.x - b.x) * (a.x - b.x) + (a.y - b.y) * (a.y - b.y))
}

/// How visible food at the distance `d` is: `1 - d / VISION_RANGE`, kept
/// between zero and one.
pub open spec fn contribution(d: int) -> int {
    clamp_int(ONE - d / (VISION_RANGE as int), 0, ONE as int)
}

/// How visible the entity `x` is from `origin`; only food is visible.
pub open spec fn seen(w: WorldView, origin: Point, x: int) -> int {
    match w.slot(x) {
        SlotView::Food(f) => contribution(distance(origin, f.position)),
        _ => 0,
    }
}

/// The greatest visibility among `overlaps`, zero if there is none.
pub open spec fn brightest(w: WorldView, origin: Point, overlaps: Seq<Entity>) -> int
    decreases overlaps.len(),
{
    if overlaps.len() == 0 {
        0
    } else {
        max_int(
            brightest(w, origin, overlaps.drop_last()),
            seen(w, origin, overlaps.last() as int),
        )
    }
}

/// The activation of the eye `e`: the greatest visibility over all the
/// sightings that name it, zero if none does.
pub open spec fn eye_level(w: WorldView, sightings: Seq<SightingView>, e: int) -> int
    decreases sightings.len(),
{
    if sightings.len() == 0 {
        0
    } else {
        let before = eye_level(w, sightings.drop_last(), e);
        let s = sightings.last();
        if s.eye == e {
            max_int(before, brightest(w, s.origin, s.overlaps))
        } else {
            before
        }
    }
}

/// The registry after sensing: each eye holds its new activation, and
/// nothing else has changed.
pub open spec fn sensed(w: WorldView, sightings: Seq<SightingView>) -> WorldView {
    WorldView {
        slots: Seq::new(
            w.slots.len(),
            |i: int|
                match w.slots[i] {
                    SlotView::Eye(y) => SlotView::Eye(
                        Eye { activation: eye_level(w, sightings, i) as i64, ..y },
                    ),
                    s => s,
                },
        ),
        events: w.events,
    }
}

/// What an eye makes of a cone lies between zero and one.
pub proof fn lemma_brightest_bounds(w: WorldView, origin: Point, overlaps: Seq<Entity>)
    ensures
        0 <= brightest(w, origin, overlaps) <= ONE,
    decreases overlaps.len(),
{
    if overlaps.len() > 0 {
        lemma_brightest_bounds(w, origin, overlaps.drop_last());
    }
}

/// The activation of an eye lies between zero and one.
pub proof fn lemma_eye_level_bounds(w: WorldView, sightings: Seq<SightingView>, e: int)
    ensures
        0 <= eye_level(w, sightings, e) <= ONE,
    decreases sightings.len(),
{
    if sightings.len() > 0 {
        lemma_eye_level_bounds(w, sightings.drop_last(), e);
        lemma_brightest_bounds(w, sightings.last().origin, sightings.last().overlaps);
    }
}

/// What an eye sees depends on the food alone.
pub proof fn lemma_brightest_same_food(
    a: WorldView,
    b: WorldView,
    origin: Point,
    overlaps: Seq<Entity>,
)
    requires
        forall|x: int| (a.slot(x) is Food || b.slot(x) is Food) ==> a.slot(x) == b.slot(x),
    ensures
        brightest(a, origin, overlaps) == brightest(b, origin, overlaps),
    decreases overlaps.len(),
{
    if overlaps.len() > 0 {
        lemma_brightest_same_food(a, b, origin, overlaps.drop_last());
    }
}

/// The sensing stage keeps the registry sound.
pub proof fn lemma_sensed_wf(w: WorldView, sightings: Seq<SightingView>)
    requires
        w.wf(),
    ensures
        sensed(w, sightings).wf(),
{
    let r = sensed(w, sightings);
    assert forall|i: int| 0 <= i < w.slots.len() implies crate::world::slot_evolves(
        #[trigger] w.slots[i],
        r.slots[i],
    ) by {
        lemma_eye_level_bounds(w, sightings, i);
    }
    lemma_evolves_wf(w, r);
}

/// The corners of the vision cone of an eye, in the frame of the eye: a
/// trapezoid that opens away from the body and reaches as far as the eye can
/// see.
pub open spec fn cone_corners() -> Seq<Point> {
    seq![
        Point { x: -10_000_000i64, y: -5_000_000i64 },
        Point { x: 10_000_000i64, y: -5_000_000i64 },
        Point { x: 300_000_000i64, y: -1_000_000_000i64 },
        Point { x: -300_000_000i64, y: -1_000_000_000i64 },
    ]
}

/// The shape that the spatial index is to query for each eye.
pub fn vision_cone() -> (corners: Vec<Point>)
    ensures
        corners@ == cone_corners(),
{
    let mut corners: Vec<Point> = Vec::new();
    corners.push(Point { x: -10_000_000, y: -5_000_000 });
    corners.push(Point { x: 10_000_000, y: -5_000_000 });
    corners.push(Point { x: 300_000_000, y: -1_000_000_000 });
    corners.push(Point { x: -300_000_000, y: -1_000_000_000 });
    assert(corners@ =~= cone_corners());
    corners
}

/// How visible food at `food` is from `origin`.
pub fn glimpse(origin: Point, food: Point) -> (r: i64)
    ensures
        r == contribution(distance(origin, food)),
        0 <= r <= ONE,
{
    let dx: u64 = span(origin.x, food.x);
    let dy: u64 = span(origin.y, food.y);
    let ghost a = abs_int(origin.x - food.x);
    let ghost b = abs_int(origin.y - food.y);
    let ghost n = (origin.x - food.x) * (origin.x - food.x) + (origin.y - food.y) * (origin.y
        - food.y);
    proof {
        assert(a * a == (origin.x - food.x) * (origin.x - food.x)) by (nonlinear_arith)
            requires
                a == abs_int(origin.x - food.x),
        ;
        assert(b * b == (origin.y - food.y) * (origin.y - food.y)) by (nonlinear_arith)
            requires
                b == abs_int(origin.y - food.y),
        ;
        assert(a * a >= 0) by (nonlinear_arith);
        assert(b * b >= 0) by (nonlinear_arith);
        assert(n == a * a + b * b);
        lemma_root_exists(n);
        lemma_root_dominates(a, b, root(n));
        assert(n == b * b + a * a);
        lemma_root_dominates(b, a, root(n));
    }
    if dx >= 1_000_000_000 || dy >= 1_000_000_000 {
        return 0;
    }
    assert(dx * dx <= 1_000_000_000_000_000_000) by (nonlinear_arith)
        requires
            0 <= dx < 1_000_000_000,
    ;
    assert(dy * dy <= 1_000_000_000_000_000_000) by (nonlinear_arith)
        requires
            0 <= dy < 1_000_000_000,
    ;
    let d: u64 = isqrt(dx * dx + dy * dy);
    assert(d < 2_000_000_000) by (nonlinear_arith)
        requires
            d * d <= 2_000_000_000_000_000_000,
            0 <= d,
    ;
    let c: i64 = ONE - (d / 1000) as i64;
    if c < 0 {
        0
    } else {
        c
    }
}

/// The greatest visibility among the entities that overlap a vision cone
/// whose eye stands at `origin`. Handles that refer to no live food item are
/// passed over.
pub fn eye_activation(world: &World, origin: Point, overlaps: &Vec<Entity>) -> (r: i64)
    ensures
        r == brightest(world@, origin, overlaps@),
        0 <= r <= ONE,
{
    let mut best: i64 = 0;
    let mut k: usize = 0;
    while k < overlaps.len()
        invariant
            k <= overlaps.len(),
            best == brightest(world@, origin, overlaps@.take(k as int)),
            0 <= best <= ONE,
        decreases overlaps.len() - k,
    {
        let x = overlaps[k];
        proof {
            assert(overlaps@.take(k + 1).drop_last() =~= overlaps@.take(k as int));
        }
        if x < world.slots.len() {
            match &world.slots[x] {
                Slot::Food(f) => {
                    let c = glimpse(origin, f.position);
                    if c > best {
                        best = c;
                    }
                },
                _ => {},
            }
        }
        k = k + 1;
    }
    proof {
        assert(overlaps@.take(k as int) =~= overlaps@);
    }
    best
}

/// The sensing stage: gives every eye the greatest visibility that the
/// sightings naming it report, and zero to an eye that none names.
pub fn eye_sensing(world: &mut World, sightings: &Vec<Sighting>)
    requires
        old(world).wf(),
    ensures
        final(world).wf(),
        final(world)@ == sensed(old(world)@, sightings_view(sightings@)),
{
    let ghost w0 = world@;
    let ghost views = sightings_view(sightings@);
    let mut i: usize = 0;
    while i < world.slots.len()
        invariant
            i <= world.slots.len(),
            world@.events == w0.events,
            world@.slots.len() == w0.slots.len(),
            forall|j: int|
                0 <= j < w0.slots.len() ==> #[trigger] world@.slots[j] == match w0.slots[j] {
                    SlotView::Eye(y) => if j < i {
                        SlotView::Eye(Eye { activation: 0, ..y })
                    } else {
                        w0.slots[j]
                    },
                    s => s,
                },
        decreases world.slots.len() - i,
    {
        let ghost before = world@;
        match &mut world.slots[i] {
            Slot::Eye(y) => {
                y.activation = 0;
            },
            _ => {},
        }
        i = i + 1;
        proof {
            assert forall|j: int| 0 <= j < w0.slots.len() implies #[trigger] world@.slots[j]
                == match w0.slots[j] {
                SlotView::Eye(y) => if j < i {
                    SlotView::Eye(Eye { activation: 0, ..y })
                } else {
                    w0.slots[j]
                },
                s => s,
            } by {
                assert(before.slots[j] == match w0.slots[j] {
                    SlotView::Eye(y) => if j < i - 1 {
                        SlotView::Eye(Eye { activation: 0, ..y })
                    } else {
                        w0.slots[j]
                    },
                    s => s,
                });
            }
        }
    }
    let mut k: usize = 0;
    while k < sightings.len()
        invariant
            k <= sightings.len(),
            views == sightings_view(sightings@),
            world@.events == w0.events,
            world@.slots.len() == w0.slots.len(),
            forall|j: int|
                0 <= j < w0.slots.len() ==> #[trigger] world@.slots[j] == match w0.slots[j] {
                    SlotView::Eye(y) => SlotView::Eye(
                        Eye { activation: eye_level(w0, views.take(k as int), j) as i64, ..y },
                    ),
                    s => s,
                },
        decreases sightings.len() - k,
    {
        let s = &sightings[k];
        let ghost before = world@;
        proof {
            assert(views.take(k + 1).drop_last() =~= views.take(k as int));
            assert(views.take(k + 1).last() == s@);
            assert forall|j: int| 0 <= j < w0.slots.len() implies 0 <= (#[trigger] eye_level(
                w0,
                views.take(k as int),
                j,
            )) <= ONE by {
                lemma_eye_level_bounds(w0, views.take(k as int), j);
            }
        }
        if world.is_eye(s.eye) {
            let a = eye_activation(world, s.origin, &s.overlaps);
            proof {
                assert forall|x: int| (before.slot(x) is Food || w0.slot(x) is Food)
                    implies before.slot(x) == w0.slot(x) by {
                    if 0 <= x < w0.slots.len() {
                        assert(before.slots[x] == match w0.slots[x] {
                            SlotView::Eye(y) => SlotView::Eye(
                                Eye {
                                    activation: eye_level(w0, views.take(k as int), x) as i64,
                                    ..y
                                },
                            ),
                            s => s,
                        });
                    }
                }
                lemma_brightest_same_food(before, w0, s.origin, s.overlaps@);
                assert(before.slots[s.eye as int] == match w0.slots[s.eye as int] {
                    SlotView::Eye(y) => SlotView::Eye(
                        Eye {
                            activation: eye_level(w0, views.take(k as int), s.eye as int) as i64,
                            ..y
                        },
                    ),
                    s => s,
                });
            }
            match &mut world.slots[s.eye] {
                Slot::Eye(y) => {
                    if a > y.activation {
                        y.activation = a;
                    }
                },
                _ => {},
            }
        }
        k = k + 1;
        proof {
            assert forall|j: int| 0 <= j < w0.slots.len() implies #[trigger] world@.slots[j]
                == match w0.slots[j] {
                SlotView::Eye(y) => SlotView::Eye(
                    Eye { activation: eye_level(w0, views.take(k as int), j) as i64, ..y },
                ),
                s => s,
            } by {
                assert(before.slots[j] == match w0.slots[j] {
                    SlotView::Eye(y) => SlotView::Eye(
                        Eye { activation: eye_level(w0, views.take(k - 1), j) as i64, ..y },
                    ),
                    s => s,
                });
            }
        }
    }
    proof {
        assert(views.take(k as int) =~= views);
        assert(world@.slots =~= sensed(w0, views).slots);
        lemma_sensed_wf(w0, views);
    }
}

} // verus!
