//! The registry of live entities and its mathematical model.
//!
//! Every entity occupies one slot of the registry and is known by the index of
//! that slot, which is never given to another entity. A cell owns its organs:
//! each organ remembers its parent, and leaves the registry with it.

use vstd::prelude::*;
use crate::fixed::{all_in_range, in_range, ONE};
use crate::params::THINKING_PERIOD;
use crate::timer::{ThinkingTimer, Timer};

verus! {

/// The handle of an entity: the index of its slot.
pub type Entity = usize;

/// A position in the plane.
#[derive(Clone, Copy, Debug, PartialEq, Eq)]
pub struct Point {
    pub x: i64,
    pub y: i64,
}

/// A thrust-producing organ.
#[derive(Clone, Copy, Debug, PartialEq, Eq)]
pub struct Flagellum {
    /// Thrust intensity, between zero and `ONE`.
    pub activation: i64,
    /// Direction of the thrust relative to the organ's placement.
    pub angle: i64,
    /// Angular position on the body of the parent.
    pub position: i64,
    pub parent: Option<Entity>,
}

/// A vision organ.
#[derive(Clone, Copy, Debug, PartialEq, Eq)]
pub struct Eye {
    /// Visibility of the nearest food, between zero and `ONE`.
    pub activation: i64,
    /// Angular position on the body of the parent.
    pub position: i64,
    pub parent: Option<Entity>,
}

/// A food item.
#[derive(Clone, Copy, Debug, PartialEq, Eq)]
pub struct Food {
    pub position: Point,
}

/// A living agent.
#[derive(Debug)]
pub struct Cell {
    pub flagella: Vec<Entity>,
    pub eyes: Vec<Entity>,
    pub energy: i64,
    /// Angular position and thrust angle of each flagellum.
    pub flagella_params: Vec<(i64, i64)>,
    /// Angular position of each eye.
    pub eye_params: Vec<i64>,
    /// Row-major square matrix: entry `i * n + j` weighs unit `i` into unit `j`.
    pub weights: Vec<i64>,
    pub biases: Vec<i64>,
    pub state: Vec<i64>,
    pub position: Point,
    pub rotation: i64,
    pub timer: ThinkingTimer,
}

/// What a handle refers to. A slot whose entity is gone stays vacant.
#[derive(Debug)]
pub enum Slot {
    Vacant,
    Cell(Cell),
    Flagellum(Flagellum),
    Eye(Eye),
    Food(Food),
}

/// A cell joined the registry.
#[derive(Clone, Copy, Debug, PartialEq, Eq)]
pub struct CellSpawnEvent(pub Entity);

/// A cell left the registry, with its organs.
#[derive(Clone, Copy, Debug, PartialEq, Eq)]
pub struct CellDespawnEvent(pub Entity);

/// A flagellum joined the registry.
#[derive(Clone, Copy, Debug, PartialEq, Eq)]
pub struct FlagellumSpawnEvent(pub Entity);

/// An eye joined the registry.
#[derive(Clone, Copy, Debug, PartialEq, Eq)]
pub struct EyeSpawnEvent(pub Entity);

/// A food item joined the registry.
#[derive(Clone, Copy, Debug, PartialEq, Eq)]
pub struct FoodSpawnEvent(pub Entity);

/// A food item left the registry.
#[derive(Clone, Copy, Debug, PartialEq, Eq)]
pub struct FoodDespawnEvent(pub Entity);

/// One entry of the ordered notification channel.
#[derive(Clone, Copy, Debug, PartialEq, Eq)]
pub enum Notification {
    CellSpawn(CellSpawnEvent),
    CellDespawn(CellDespawnEvent),
    FlagellumSpawn(FlagellumSpawnEvent),
    EyeSpawn(EyeSpawnEvent),
    FoodSpawn(FoodSpawnEvent),
    FoodDespawn(FoodDespawnEvent),
}

/// Why a cell could not be created.
#[derive(Clone, Copy, Debug, PartialEq, Eq)]
pub enum SpawnError {
    /// The numbers of flagella and of eyes differ.
    OrganCountMismatch,
    /// Biases or weights do not fit the length of the state.
    ControllerShape,
    /// The state has fewer units than the cell has organs.
    ControllerTooSmall,
    /// A genome or controller value lies outside `[-LIMIT, LIMIT]`.
    ValueOutOfRange,
    /// The registry cannot number the new entities.
    RegistryFull,
}

/// The registry: one slot for each handle ever given out, and the
/// notifications that were sent and not collected yet.
pub struct World {
    pub slots: Vec<Slot>,
    pub events: Vec<Notification>,
}

/// The model of a cell.
pub struct CellView {
    pub flagella: Seq<Entity>,
    pub eyes: Seq<Entity>,
    pub energy: i64,
    pub flagella_params: Seq<(i64, i64)>,
    pub eye_params: Seq<i64>,
    pub weights: Seq<i64>,
    pub biases: Seq<i64>,
    pub state: Seq<i64>,
    pub position: Point,
    pub rotation: i64,
    pub timer: ThinkingTimer,
}

/// The model of a slot.
pub enum SlotView {
    Vacant,
    Cell(CellView),
    Flagellum(Flagellum),
    Eye(Eye),
    Food(Food),
}

/// The model of the registry: what each slot holds, and every notification
/// sent so far that was not collected yet.
pub struct WorldView {
    pub slots: Seq<SlotView>,
    pub events: Seq<Notification>,
}

/// What a new cell is made from.
pub struct Blueprint {
    pub position: Point,
    pub rotation: i64,
    pub energy: i64,
    pub flagella_params: Seq<(i64, i64)>,
    pub eye_params: Seq<i64>,
    pub weights: Seq<i64>,
    pub biases: Seq<i64>,
    pub state: Seq<i64>,
}

/// What a new cell is made from, as owned data.
#[derive(Debug)]
pub struct Seed {
    pub position: Point,
    pub rotation: i64,
    pub energy: i64,
    pub flagella_params: Vec<(i64, i64)>,
    pub eye_params: Vec<i64>,
    pub weights: Vec<i64>,
    pub biases: Vec<i64>,
    pub state: Vec<i64>,
}

impl View for Seed {
    type V = Blueprint;

    open spec fn view(&self) -> Blueprint {
        Blueprint {
            position: self.position,
            rotation: self.rotation,
            energy: self.energy,
            flagella_params: self.flagella_params@,
            eye_params: self.eye_params@,
            weights: self.weights@,
            biases: self.biases@,
            state: self.state@,
        }
    }
}

impl View for Cell {
    type V = CellView;

    open spec fn view(&self) -> CellView {
        CellView {
            flagella: self.flagella@,
            eyes: self.eyes@,
            energy: self.energy,
            flagella_params: self.flagella_params@,
            eye_params: self.eye_params@,
            weights: self.weights@,
            biases: self.biases@,
            state: self.state@,
            position: self.position,
            rotation: self.rotation,
            timer: self.timer,
        }
    }
}

impl View for Slot {
    type V = SlotView;

    open spec fn view(&self) -> SlotView {
        match *self {
            Slot::Vacant => SlotView::Vacant,
            Slot::Cell(c) => SlotView::Cell(c@),
            Slot::Flagellum(f) => SlotView::Flagellum(f),
            Slot::Eye(e) => SlotView::Eye(e),
            Slot::Food(f) => SlotView::Food(f),
        }
    }
}

impl View for World {
    type V = WorldView;

    open spec fn view(&self) -> WorldView {
        WorldView {
            slots: Seq::new(self.slots@.len(), |i: int| self.slots@[i]@),
            events: self.events@,
        }
    }
}

/// Whether every pair of an organ layout holds confined scalars.
pub open spec fn all_pairs_in_range(s: Seq<(i64, i64)>) -> bool {
    forall|i: int|
        0 <= i < s.len() ==> in_range((#[trigger] s[i]).0 as int) && in_range(s[i].1 as int)
}

impl Blueprint {
    /// Why no cell can be made from this blueprint in a registry of `slots`
    /// slots, if anything stands against it.
    pub open spec fn verdict(self, slots: nat) -> Option<SpawnError> {
        let n = self.state.len();
        if self.flagella_params.len() != self.eye_params.len() {
            Some(SpawnError::OrganCountMismatch)
        } else if self.biases.len() != n || self.weights.len() != n * n {
            Some(SpawnError::ControllerShape)
        } else if self.flagella_params.len() + self.eye_params.len() > n {
            Some(SpawnError::ControllerTooSmall)
        } else if !(all_pairs_in_range(self.flagella_params) && all_in_range(self.eye_params)
            && all_in_range(self.weights) && all_in_range(self.biases) && all_in_range(
            self.state,
        )) {
            Some(SpawnError::ValueOutOfRange)
        } else if slots + self.flagella_params.len() + self.eye_params.len() >= usize::MAX {
            Some(SpawnError::RegistryFull)
        } else {
            None
        }
    }
}

impl CellView {
    /// The structural invariant of a cell: as many organs of each kind as the
    /// genome lays out, as many eyes as flagella, a controller that has a unit
    /// for each organ, and confined values throughout.
    pub open spec fn shape_ok(self) -> bool {
        &&& self.flagella.len() == self.flagella_params.len()
        &&& self.eyes.len() == self.eye_params.len()
        &&& self.flagella.len() == self.eyes.len()
        &&& self.flagella.len() + self.eyes.len() <= self.state.len()
        &&& self.biases.len() == self.state.len()
        &&& self.weights.len() == self.state.len() * self.state.len()
        &&& all_pairs_in_range(self.flagella_params)
        &&& all_in_range(self.eye_params)
        &&& all_in_range(self.weights)
        &&& all_in_range(self.biases)
        &&& all_in_range(self.state)
    }
}

impl WorldView {
    /// What the handle `id` refers to; a handle that was never given out
    /// refers to nothing.
    pub open spec fn slot(self, id: int) -> SlotView {
        if 0 <= id < self.slots.len() {
            self.slots[id]
        } else {
            SlotView::Vacant
        }
    }

    /// Whether `id` refers to a live cell.
    pub open spec fn is_cell(self, id: int) -> bool {
        self.slot(id) is Cell
    }

    /// Whether `id` refers to a live food item.
    pub open spec fn is_food(self, id: int) -> bool {
        self.slot(id) is Food
    }

    /// Whether `id` refers to a live eye.
    pub open spec fn is_eye(self, id: int) -> bool {
        self.slot(id) is Eye
    }

    /// The cell that `id` refers to.
    pub open spec fn cell(self, id: int) -> CellView
        recommends
            self.is_cell(id),
    {
        self.slot(id)->Cell_0
    }

    /// Whether `id` refers to a live flagellum whose parent is `cell`.
    pub open spec fn owns_flagellum(self, cell: int, id: int) -> bool {
        self.slot(id) matches SlotView::Flagellum(f) && f.parent matches Some(p) && p == cell
    }

    /// Whether `id` refers to a live eye whose parent is `cell`.
    pub open spec fn owns_eye(self, cell: int, id: int) -> bool {
        self.slot(id) matches SlotView::Eye(e) && e.parent matches Some(p) && p == cell
    }

    /// The invariant of one slot: organ activations lie between zero and
    /// `ONE`; a cell has a sound shape and its organ handles refer to live
    /// organs of the right kind that name it as their parent.
    pub open spec fn slot_ok(self, id: int) -> bool {
        match self.slot(id) {
            SlotView::Vacant => true,
            SlotView::Food(_) => true,
            SlotView::Flagellum(f) => 0 <= f.activation <= ONE,
            SlotView::Eye(e) => 0 <= e.activation <= ONE,
            SlotView::Cell(c) => {
                &&& c.shape_ok()
                &&& forall|k: int|
                    0 <= k < c.flagella.len() ==> self.owns_flagellum(
                        id,
                        #[trigger] c.flagella[k] as int,
                    )
                &&& forall|k: int|
                    0 <= k < c.eyes.len() ==> self.owns_eye(id, #[trigger] c.eyes[k] as int)
            },
        }
    }

    /// The invariant of the registry: every slot meets the invariant of its kind.
    pub open spec fn wf(self) -> bool {
        forall|i: int| 0 <= i < self.slots.len() ==> #[trigger] self.slot_ok(i)
    }

    /// The registry with one more notification.
    pub open spec fn emit(self, e: Notification) -> WorldView {
        WorldView { slots: self.slots, events: self.events.push(e) }
    }

    /// The registry with the slot `id` replaced.
    pub open spec fn put(self, id: int, s: SlotView) -> WorldView {
        WorldView { slots: self.slots.update(id, s), events: self.events }
    }

    /// The registry with one more slot.
    pub open spec fn add(self, s: SlotView) -> WorldView {
        WorldView { slots: self.slots.push(s), events: self.events }
    }

    /// The number of live cells.
    pub open spec fn population(self) -> nat {
        cells_among(self.slots)
    }

    /// The number of live food items.
    pub open spec fn stock(self) -> nat {
        food_among(self.slots)
    }

    /// The registry once the cell `id` was found at `position`, turned by
    /// `rotation`; any other handle is left alone.
    pub open spec fn moved(self, id: Entity, position: Point, rotation: i64) -> WorldView {
        match self.slot(id as int) {
            SlotView::Cell(c) => self.put(
                id as int,
                SlotView::Cell(CellView { position, rotation, ..c }),
            ),
            _ => self,
        }
    }

    /// The registry with a new food item at `position`, announced.
    pub open spec fn spawn_food(self, position: Point) -> WorldView {
        self.add(SlotView::Food(Food { position })).emit(
            Notification::FoodSpawn(FoodSpawnEvent(self.slots.len() as usize)),
        )
    }

    /// Removes the food item `id`; any other handle is left alone.
    pub open spec fn despawn_food(self, id: Entity) -> WorldView {
        if self.is_food(id as int) {
            self.put(id as int, SlotView::Vacant).emit(
                Notification::FoodDespawn(FoodDespawnEvent(id)),
            )
        } else {
            self
        }
    }

    /// The registry with a new flagellum at rest, announced.
    pub open spec fn spawn_flagellum(
        self,
        position: i64,
        angle: i64,
        parent: Option<Entity>,
    ) -> WorldView {
        self.add(SlotView::Flagellum(Flagellum { activation: 0, angle, position, parent })).emit(
            Notification::FlagellumSpawn(FlagellumSpawnEvent(self.slots.len() as usize)),
        )
    }

    /// The registry with a new eye that sees nothing yet, announced.
    pub open spec fn spawn_eye(self, position: i64, parent: Option<Entity>) -> WorldView {
        self.add(SlotView::Eye(Eye { activation: 0, position, parent })).emit(
            Notification::EyeSpawn(EyeSpawnEvent(self.slots.len() as usize)),
        )
    }

    /// The handle that `spawn_cell` gives to a cell made from `b`.
    pub open spec fn next_cell(self, b: Blueprint) -> Entity {
        (self.slots.len() + b.flagella_params.len() + b.eye_params.len()) as usize
    }

    /// The cell made from `b`, as it stands in its slot right after birth.
    pub open spec fn newborn(self, b: Blueprint) -> CellView {
        let base = self.slots.len();
        let nl = b.flagella_params.len();
        CellView {
            flagella: Seq::new(nl, |k: int| (base + k) as usize),
            eyes: Seq::new(b.eye_params.len(), |k: int| (base + nl + k) as usize),
            energy: b.energy,
            flagella_params: b.flagella_params,
            eye_params: b.eye_params,
            weights: b.weights,
            biases: b.biases,
            state: b.state,
            position: b.position,
            rotation: b.rotation,
            timer: ThinkingTimer(Timer::fresh(THINKING_PERIOD)),
        }
    }

    /// Creates a cell from a blueprint: first its flagella, then its eyes, each
    /// announced in turn, then the cell itself.
    pub open spec fn spawn_cell(self, b: Blueprint) -> WorldView {
        let base = self.slots.len();
        let nl = b.flagella_params.len();
        let ne = b.eye_params.len();
        let id = self.next_cell(b);
        WorldView {
            slots: self.slots + flagellum_slots(b.flagella_params, id, nl) + eye_slots(
                b.eye_params,
                id,
                ne,
            ) + seq![SlotView::Cell(self.newborn(b))],
            events: self.events + flagellum_events(base, nl) + eye_events(base + nl, ne)
                + seq![Notification::CellSpawn(CellSpawnEvent(id))],
        }
    }

    /// Removes the cell `id` together with its organs; any other handle is
    /// left alone.
    pub open spec fn despawn_cell(self, id: Entity) -> WorldView {
        match self.slot(id as int) {
            SlotView::Cell(c) => WorldView {
                slots: Seq::new(
                    self.slots.len(),
                    |j: int|
                        if j == id || lists(c.flagella, j) || lists(c.eyes, j) {
                            SlotView::Vacant
                        } else {
                            self.slots[j]
                        },
                ),
                events: self.events.push(Notification::CellDespawn(CellDespawnEvent(id))),
            },
            _ => self,
        }
    }
}

/// Whether the handle `j` occurs among the first `n` entries of `s`.
pub open spec fn lists_before(s: Seq<Entity>, n: int, j: int) -> bool {
    exists|k: int| 0 <= k < n && k < s.len() && #[trigger] s[k] == j
}

/// Whether the handle `j` occurs in `s`.
pub open spec fn lists(s: Seq<Entity>, j: int) -> bool {
    lists_before(s, s.len() as int, j)
}

/// The number of cells among `slots`.
pub open spec fn cells_among(slots: Seq<SlotView>) -> nat
    decreases slots.len(),
{
    if slots.len() == 0 {
        0
    } else {
        cells_among(slots.drop_last()) + if slots.last() is Cell {
            1nat
        } else {
            0nat
        }
    }
}

/// The number of food items among `slots`.
pub open spec fn food_among(slots: Seq<SlotView>) -> nat
    decreases slots.len(),
{
    if slots.len() == 0 {
        0
    } else {
        food_among(slots.drop_last()) + if slots.last() is Food {
            1nat
        } else {
            0nat
        }
    }
}

/// The slots of the first `count` flagella of a layout, owned by `parent`.
pub open spec fn flagellum_slots(layout: Seq<(i64, i64)>, parent: Entity, count: nat) -> Seq<
    SlotView,
> {
    Seq::new(
        count,
        |k: int|
            SlotView::Flagellum(
                Flagellum {
                    activation: 0,
                    angle: layout[k].1,
                    position: layout[k].0,
                    parent: Some(parent),
                },
            ),
    )
}

/// The slots of the first `count` eyes of a layout, owned by `parent`.
pub open spec fn eye_slots(layout: Seq<i64>, parent: Entity, count: nat) -> Seq<SlotView> {
    Seq::new(
        count,
        |k: int| SlotView::Eye(Eye { activation: 0, position: layout[k], parent: Some(parent) }),
    )
}

/// The notifications for `count` flagella created from slot `base` on.
pub open spec fn flagellum_events(base: nat, count: nat) -> Seq<Notification> {
    Seq::new(
        count,
        |k: int| Notification::FlagellumSpawn(FlagellumSpawnEvent((base + k) as usize)),
    )
}

/// The notifications for `count` eyes created from slot `base` on.
pub open spec fn eye_events(base: nat, count: nat) -> Seq<Notification> {
    Seq::new(count, |k: int| Notification::EyeSpawn(EyeSpawnEvent((base + k) as usize)))
}

/// Whether a slot that held `a` may come to hold `b` while every organ stays
/// with its parent: organs keep their parent and respect their bounds, cells
/// keep their organs and a sound shape, food may vanish, and nothing else
/// changes.
pub open spec fn slot_evolves(a: SlotView, b: SlotView) -> bool {
    a == b || match (a, b) {
        (SlotView::Flagellum(x), SlotView::Flagellum(y)) => x.parent == y.parent && 0
            <= y.activation <= ONE,
        (SlotView::Eye(x), SlotView::Eye(y)) => x.parent == y.parent && 0 <= y.activation <= ONE,
        (SlotView::Cell(x), SlotView::Cell(y)) => y.shape_ok() && x.flagella == y.flagella
            && x.eyes == y.eyes,
        (SlotView::Food(_), SlotView::Vacant) => true,
        _ => false,
    }
}

/// Whether the slots of `r` all evolved from those of `w`.
pub open spec fn evolves(w: WorldView, r: WorldView) -> bool {
    &&& r.slots.len() == w.slots.len()
    &&& forall|i: int|
        0 <= i < w.slots.len() ==> slot_evolves(#[trigger] w.slots[i], r.slots[i])
}

/// A registry whose slots evolved from those of a sound one is sound.
pub proof fn lemma_evolves_wf(w: WorldView, r: WorldView)
    requires
        w.wf(),
        evolves(w, r),
    ensures
        r.wf(),
{
    assert forall|i: int| 0 <= i < r.slots.len() implies #[trigger] r.slot_ok(i) by {
        assert(w.slot_ok(i));
        assert(slot_evolves(w.slots[i], r.slots[i]));
        if let SlotView::Cell(c0) = r.slot(i) {
            let c = w.cell(i);
            assert forall|k: int| 0 <= k < c0.flagella.len() implies r.owns_flagellum(
                i,
                #[trigger] c0.flagella[k] as int,
            ) by {
                assert(w.owns_flagellum(i, c.flagella[k] as int));
                assert(slot_evolves(w.slots[c.flagella[k] as int], r.slots[c.flagella[k] as int]));
            }
            assert forall|k: int| 0 <= k < c0.eyes.len() implies r.owns_eye(
                i,
                #[trigger] c0.eyes[k] as int,
            ) by {
                assert(w.owns_eye(i, c.eyes[k] as int));
                assert(slot_evolves(w.slots[c.eyes[k] as int], r.slots[c.eyes[k] as int]));
            }
        }
    }
}

/// Soundness is a matter of the slots alone.
pub proof fn lemma_same_slots_wf(a: WorldView, b: WorldView)
    requires
        a.wf(),
        a.slots == b.slots,
    ensures
        b.wf(),
{
    assert forall|i: int| 0 <= i < b.slots.len() implies #[trigger] b.slot_ok(i) by {
        assert(a.slot_ok(i));
        if let SlotView::Cell(c0) = b.slot(i) {
            assert forall|k: int| 0 <= k < c0.flagella.len() implies b.owns_flagellum(
                i,
                #[trigger] c0.flagella[k] as int,
            ) by {
                assert(a.owns_flagellum(i, c0.flagella[k] as int));
            }
            assert forall|k: int| 0 <= k < c0.eyes.len() implies b.owns_eye(
                i,
                #[trigger] c0.eyes[k] as int,
            ) by {
                assert(a.owns_eye(i, c0.eyes[k] as int));
            }
        }
    }
}

/// Replacing a cell by one with the same organs and a sound shape keeps the
/// registry sound.
pub proof fn lemma_put_cell_wf(w: WorldView, id: int, c: CellView)
    requires
        w.wf(),
        w.is_cell(id),
        c.shape_ok(),
        c.flagella == w.cell(id).flagella,
        c.eyes == w.cell(id).eyes,
    ensures
        w.put(id, SlotView::Cell(c)).wf(),
{
    let r = w.put(id, SlotView::Cell(c));
    assert forall|i: int| 0 <= i < r.slots.len() implies #[trigger] r.slot_ok(i) by {
        assert(w.slot_ok(i));
        assert(w.slot_ok(id));
        if let SlotView::Cell(c0) = r.slot(i) {
            assert forall|k: int| 0 <= k < c0.flagella.len() implies r.owns_flagellum(
                i,
                #[trigger] c0.flagella[k] as int,
            ) by {
                assert(w.owns_flagellum(i, c0.flagella[k] as int));
            }
            assert forall|k: int| 0 <= k < c0.eyes.len() implies r.owns_eye(
                i,
                #[trigger] c0.eyes[k] as int,
            ) by {
                assert(w.owns_eye(i, c0.eyes[k] as int));
            }
        }
    }
}

/// Moving a cell keeps the registry sound.
pub proof fn lemma_moved_wf(w: WorldView, id: Entity, position: Point, rotation: i64)
    requires
        w.wf(),
    ensures
        w.moved(id, position, rotation).wf(),
{
    if let SlotView::Cell(c) = w.slot(id as int) {
        assert(w.slot_ok(id as int));
        lemma_put_cell_wf(w, id as int, CellView { position, rotation, ..c });
    }
}

/// A slot that is no cell and respects the bounds of an organ can be added.
pub proof fn lemma_add_wf(w: WorldView, s: SlotView)
    requires
        w.wf(),
        !(s is Cell),
        s matches SlotView::Flagellum(f) ==> 0 <= f.activation <= ONE,
        s matches SlotView::Eye(e) ==> 0 <= e.activation <= ONE,
    ensures
        w.add(s).wf(),
{
    let r = w.add(s);
    assert forall|i: int| 0 <= i < r.slots.len() implies #[trigger] r.slot_ok(i) by {
        if i < w.slots.len() {
            assert(w.slot_ok(i));
            assert(r.slot(i) == w.slot(i));
            if let SlotView::Cell(c) = w.slot(i) {
                assert forall|k: int| 0 <= k < c.flagella.len() implies r.owns_flagellum(
                    i,
                    #[trigger] c.flagella[k] as int,
                ) by {
                    assert(w.owns_flagellum(i, c.flagella[k] as int));
                }
                assert forall|k: int| 0 <= k < c.eyes.len() implies r.owns_eye(
                    i,
                    #[trigger] c.eyes[k] as int,
                ) by {
                    assert(w.owns_eye(i, c.eyes[k] as int));
                }
            }
        }
    }
}

/// Vacating a slot that is no organ of a live cell keeps the registry sound.
pub proof fn lemma_vacate_food_wf(w: WorldView, id: int)
    requires
        w.wf(),
        w.is_food(id),
    ensures
        w.put(id, SlotView::Vacant).wf(),
{
    let r = w.put(id, SlotView::Vacant);
    assert forall|i: int| 0 <= i < r.slots.len() implies #[trigger] r.slot_ok(i) by {
        assert(w.slot_ok(i));
        if i != id {
            assert(r.slot(i) == w.slot(i));
            if let SlotView::Cell(c) = w.slot(i) {
                assert forall|k: int| 0 <= k < c.flagella.len() implies r.owns_flagellum(
                    i,
                    #[trigger] c.flagella[k] as int,
                ) by {
                    assert(w.owns_flagellum(i, c.flagella[k] as int));
                }
                assert forall|k: int| 0 <= k < c.eyes.len() implies r.owns_eye(
                    i,
                    #[trigger] c.eyes[k] as int,
                ) by {
                    assert(w.owns_eye(i, c.eyes[k] as int));
                }
            }
        }
    }
}

/// A cell made from a sound blueprint joins a sound registry, which stays
/// sound; nothing that was there before is touched.
pub proof fn lemma_spawn_cell_wf(w: WorldView, b: Blueprint)
    requires
        w.wf(),
        b.verdict(w.slots.len()) is None,
    ensures
        w.spawn_cell(b).wf(),
        w.spawn_cell(b).slots.len() == w.slots.len() + b.flagella_params.len()
            + b.eye_params.len() + 1,
        w.next_cell(b) == w.slots.len() + b.flagella_params.len() + b.eye_params.len(),
        w.spawn_cell(b).slot(w.next_cell(b) as int) == SlotView::Cell(w.newborn(b)),
        forall|j: int| 0 <= j < w.slots.len() ==> w.spawn_cell(b).slot(j) == w.slot(j),
        forall|j: int|
            w.slots.len() <= j < w.next_cell(b) ==> !(#[trigger] w.spawn_cell(b).slot(j) is Cell),
{
    let r = w.spawn_cell(b);
    let base = w.slots.len() as int;
    let nl = b.flagella_params.len() as int;
    let ne = b.eye_params.len() as int;
    let id = w.next_cell(b);
    let c = w.newborn(b);
    assert(id == base + nl + ne);
    assert forall|j: int| 0 <= j < base implies r.slot(j) == w.slot(j) by {}
    assert forall|j: int| base <= j < base + nl implies r.slot(j) == flagellum_slots(
        b.flagella_params,
        id,
        nl as nat,
    )[j - base] by {}
    assert forall|j: int| base + nl <= j < base + nl + ne implies r.slot(j) == eye_slots(
        b.eye_params,
        id,
        ne as nat,
    )[j - base - nl] by {}
    assert(r.slot(id as int) == SlotView::Cell(c));
    assert forall|i: int| 0 <= i < r.slots.len() implies #[trigger] r.slot_ok(i) by {
        if i < base {
            assert(w.slot_ok(i));
            if let SlotView::Cell(c0) = w.slot(i) {
                assert forall|k: int| 0 <= k < c0.flagella.len() implies r.owns_flagellum(
                    i,
                    #[trigger] c0.flagella[k] as int,
                ) by {
                    assert(w.owns_flagellum(i, c0.flagella[k] as int));
                }
                assert forall|k: int| 0 <= k < c0.eyes.len() implies r.owns_eye(
                    i,
                    #[trigger] c0.eyes[k] as int,
                ) by {
                    assert(w.owns_eye(i, c0.eyes[k] as int));
                }
            }
        } else if i < base + nl {
        } else if i < base + nl + ne {
        } else {
            assert(c.shape_ok());
            assert forall|k: int| 0 <= k < c.flagella.len() implies r.owns_flagellum(
                i,
                #[trigger] c.flagella[k] as int,
            ) by {
                assert(c.flagella[k] == base + k);
            }
            assert forall|k: int| 0 <= k < c.eyes.len() implies r.owns_eye(
                i,
                #[trigger] c.eyes[k] as int,
            ) by {
                assert(c.eyes[k] == base + nl + k);
            }
        }
    }
}

/// Removing a cell with its organs keeps the registry sound.
pub proof fn lemma_despawn_cell_wf(w: WorldView, id: Entity)
    requires
        w.wf(),
    ensures
        w.despawn_cell(id).wf(),
        w.despawn_cell(id).slots.len() == w.slots.len(),
{
    let r = w.despawn_cell(id);
    if let SlotView::Cell(c) = w.slot(id as int) {
        assert(w.slot_ok(id as int));
        assert forall|i: int| 0 <= i < r.slots.len() implies #[trigger] r.slot_ok(i) by {
            assert(w.slot_ok(i));
            if let SlotView::Cell(c0) = r.slot(i) {
                assert(w.slot(i) == r.slot(i));
                assert forall|k: int| 0 <= k < c0.flagella.len() implies r.owns_flagellum(
                    i,
                    #[trigger] c0.flagella[k] as int,
                ) by {
                    let h = c0.flagella[k] as int;
                    assert(w.owns_flagellum(i, h));
                    if lists(c.flagella, h) {
                        let k1 = choose|k1: int| 0 <= k1 < c.flagella.len() && c.flagella[k1] == h;
                        assert(w.owns_flagellum(id as int, c.flagella[k1] as int));
                    }
                    if lists(c.eyes, h) {
                        let k1 = choose|k1: int| 0 <= k1 < c.eyes.len() && c.eyes[k1] == h;
                        assert(w.owns_eye(id as int, c.eyes[k1] as int));
                    }
                }
                assert forall|k: int| 0 <= k < c0.eyes.len() implies r.owns_eye(
                    i,
                    #[trigger] c0.eyes[k] as int,
                ) by {
                    let h = c0.eyes[k] as int;
                    assert(w.owns_eye(i, h));
                    if lists(c.flagella, h) {
                        let k1 = choose|k1: int| 0 <= k1 < c.flagella.len() && c.flagella[k1] == h;
                        assert(w.owns_flagellum(id as int, c.flagella[k1] as int));
                    }
                    if lists(c.eyes, h) {
                        let k1 = choose|k1: int| 0 <= k1 < c.eyes.len() && c.eyes[k1] == h;
                        assert(w.owns_eye(id as int, c.eyes[k1] as int));
                    }
                }
            }
        }
    }
}

} // verus!
