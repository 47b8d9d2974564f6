//! The arena of objects: slots with generations, so that a stale name finds nothing.
use crate::object::{object_model, ObjId, Object, ObjectModel};
use vstd::prelude::*;

verus! {

pub(crate) struct Slot {
    generation: u32,
    object: Option<Object>,
    next: u64,
}

/// Slots for objects. Freed slots are used again with a generation that no object in them had.
pub(crate) struct ObjectArena {
    slots: Vec<Slot>,
    free: Vec<u32>,
    floor: u32,
}

/// What a slot holds: the generation of its object or of the last one, the object, and the
/// generation that the next new object gets, above all that were given out.
pub ghost struct SlotModel {
    pub generation: u32,
    pub object: Option<ObjectModel>,
    pub next: u64,
}

/// What an arena holds. New slots begin with the generation `floor`.
#[verifier::ext_equal]
pub ghost struct ArenaModel {
    pub slots: Seq<SlotModel>,
    pub free: Seq<u32>,
    pub floor: u32,
}

impl View for Slot {
    type V = SlotModel;

    closed spec fn view(&self) -> SlotModel {
        SlotModel {
            generation: self.generation,
            object: object_model(self.object),
            next: self.next,
        }
    }
}

impl View for ObjectArena {
    type V = ArenaModel;

    closed spec fn view(&self) -> ArenaModel {
        ArenaModel {
            slots: Seq::new(self.slots@.len(), |i: int| self.slots@[i]@),
            free: self.free@,
            floor: self.floor,
        }
    }
}

/// Whether a list holds `x`, told by its elements.
pub open spec fn listed(list: Seq<u32>, x: u32) -> bool {
    exists|i: int| 0 <= i < list.len() && #[trigger] list[i] == x
}

/// A list without `x`.
pub open spec fn without(list: Seq<u32>, x: u32) -> Seq<u32>
    decreases list.len(),
{
    if list.len() == 0 {
        Seq::empty()
    } else {
        let rest = without(list.drop_last(), x);
        if list.last() == x {
            rest
        } else {
            rest.push(list.last())
        }
    }
}

/// The object under its own name in a slot.
pub open spec fn named(object: ObjectModel, id: ObjId) -> ObjectModel {
    ObjectModel { id, ..object }
}

/// An empty slot in which generations below `floor` may have been given out.
pub open spec fn blank(floor: u32) -> SlotModel {
    SlotModel {
        generation: 0,
        object: None,
        next: if floor < 1 {
            1
        } else {
            floor as u64
        },
    }
}

/// Empty slots up to and including slot `n`.
pub open spec fn padded(slots: Seq<SlotModel>, n: int, floor: u32) -> Seq<SlotModel> {
    if slots.len() <= n {
        slots + Seq::new((n + 1 - slots.len()) as nat, |i: int| blank(floor))
    } else {
        slots
    }
}

/// What the next generation of a slot is at least, once a generation was given out in it.
pub open spec fn raised(next: u64, generation: u32) -> u64 {
    if next > generation {
        next
    } else {
        (generation + 1) as u64
    }
}

/// The objects in the first `n` slots, in order.
pub open spec fn live_upto(slots: Seq<SlotModel>, n: int) -> Seq<ObjectModel>
    decreases n,
{
    if n <= 0 {
        Seq::empty()
    } else {
        match slots[n - 1].object {
            Some(o) => live_upto(slots, n - 1).push(o),
            None => live_upto(slots, n - 1),
        }
    }
}

impl ArenaModel {
    /// An arena without slots.
    pub open spec fn empty() -> ArenaModel {
        ArenaModel { slots: Seq::empty(), free: Seq::empty(), floor: 0 }
    }

    /// Whether every free slot is an empty slot, and is listed once, and the next generation of
    /// every slot is above its last one.
    pub open spec fn valid(self) -> bool {
        &&& forall|k: int|
            0 <= k < self.free.len() ==> (#[trigger] self.free[k]) < self.slots.len()
                && self.slots[self.free[k] as int].object is None
        &&& self.free.no_duplicates()
        &&& forall|i: int|
            0 <= i < self.slots.len() ==> (#[trigger] self.slots[i]).generation
                < self.slots[i].next
    }

    /// Whether every object carries the name of its slot.
    pub open spec fn well_named(self) -> bool {
        forall|i: int|
            0 <= i < self.slots.len() ==> ((#[trigger] self.slots[i]).object matches Some(o)
                ==> o.id.slot == i && o.id.generation == self.slots[i].generation)
    }

    /// The object of a name.
    pub open spec fn lookup(self, id: ObjId) -> Option<ObjectModel> {
        if id.slot < self.slots.len() && self.slots[id.slot as int].generation == id.generation {
            self.slots[id.slot as int].object
        } else {
            None
        }
    }

    /// All objects, in the order of their slots.
    pub open spec fn live(self) -> Seq<ObjectModel> {
        live_upto(self.slots, self.slots.len() as int)
    }

    /// The name that the next object gets: the last freed slot with its next generation, or a
    /// new slot. In a slot whose generations are used up, counting goes on from the last one
    /// around.
    pub open spec fn next_id(self) -> ObjId {
        if self.free.len() > 0 {
            let slot = self.free.last();
            let last = self.slots[slot as int];
            ObjId {
                slot,
                generation: if last.next <= u32::MAX {
                    last.next as u32
                } else if last.generation == u32::MAX {
                    0
                } else {
                    (last.generation + 1) as u32
                },
            }
        } else {
            ObjId { slot: self.slots.len() as u32, generation: self.floor }
        }
    }

    /// Whether a name was given out, or counts as given out: its generation is below the next
    /// one of its slot.
    pub open spec fn spent(self, id: ObjId) -> bool {
        if id.slot < self.slots.len() {
            id.generation < self.slots[id.slot as int].next
        } else {
            id.generation < self.floor
        }
    }

    /// The arena with one object more, under its next name.
    pub open spec fn inserted(self, object: ObjectModel) -> ArenaModel {
        let id = self.next_id();
        let next = if self.free.len() > 0 {
            raised(self.slots[id.slot as int].next, id.generation)
        } else {
            (id.generation + 1) as u64
        };
        let slot = SlotModel {
            generation: id.generation,
            object: Some(named(object, id)),
            next,
        };
        if self.free.len() > 0 {
            ArenaModel {
                slots: self.slots.update(id.slot as int, slot),
                free: self.free.drop_last(),
                ..self
            }
        } else {
            ArenaModel { slots: self.slots.push(slot), ..self }
        }
    }

    /// The arena with another object under a name that it finds.
    pub open spec fn replaced(self, id: ObjId, object: ObjectModel) -> ArenaModel {
        ArenaModel {
            slots: self.slots.update(
                id.slot as int,
                SlotModel { object: Some(object), ..self.slots[id.slot as int] },
            ),
            ..self
        }
    }

    /// The arena without the object of a name. A name that finds nothing changes nothing.
    pub open spec fn removed(self, id: ObjId) -> ArenaModel {
        if self.lookup(id) is Some {
            ArenaModel {
                slots: self.slots.update(
                    id.slot as int,
                    SlotModel { object: None, ..self.slots[id.slot as int] },
                ),
                free: self.free.push(id.slot),
                ..self
            }
        } else {
            self
        }
    }

    /// The arena with an object back in the slot and generation of its own name.
    pub open spec fn restored(self, object: ObjectModel) -> ArenaModel {
        let slot = object.id.slot as int;
        let slots = padded(self.slots, slot, self.floor);
        ArenaModel {
            slots: slots.update(
                slot,
                SlotModel {
                    generation: object.id.generation,
                    object: Some(object),
                    next: raised(slots[slot].next, object.id.generation),
                },
            ),
            free: without(self.free, object.id.slot),
            ..self
        }
    }
}

/// What a list without `x` holds.
pub(crate) proof fn lemma_without(list: Seq<u32>, x: u32)
    ensures
        forall|y: u32| #[trigger] listed(without(list, x), y) == (listed(list, y) && y != x),
        list.no_duplicates() ==> without(list, x).no_duplicates(),
        !listed(list, x) ==> without(list, x) == list,
    decreases list.len(),
{
    if list.len() > 0 {
        let rest = list.drop_last();
        lemma_without(rest, x);
        let now = without(list, x);
        let less = without(rest, x);
        assert forall|y: u32| #[trigger] listed(now, y) == (listed(list, y) && y != x) by {
            if listed(now, y) {
                let i = choose|i: int| 0 <= i < now.len() && #[trigger] now[i] == y;
                if i < less.len() {
                    assert(less[i] == y);
                    assert(listed(less, y));
                    assert(listed(rest, y));
                    let j = choose|j: int| 0 <= j < rest.len() && #[trigger] rest[j] == y;
                    assert(list[j] == y);
                } else {
                    assert(list[list.len() - 1] == y);
                }
            }
            if listed(list, y) && y != x {
                let i = choose|i: int| 0 <= i < list.len() && #[trigger] list[i] == y;
                if i < rest.len() {
                    assert(rest[i] == y);
                    assert(listed(rest, y));
                    assert(listed(less, y));
                    let j = choose|j: int| 0 <= j < less.len() && #[trigger] less[j] == y;
                    assert(now[j] == y);
                } else {
                    assert(now[now.len() - 1] == y);
                }
            }
        }
        if list.no_duplicates() {
            assert(rest.no_duplicates());
            assert forall|i: int, j: int| 0 <= i < now.len() && 0 <= j < now.len() && i != j implies
                now[i] != now[j] by {
                if i < less.len() && j < less.len() {
                    assert(less[i] != less[j]);
                } else {
                    let k = if i < less.len() { i } else { j };
                    assert(listed(less, less[k]));
                    assert(listed(rest, less[k]));
                    let a = choose|a: int| 0 <= a < rest.len() && #[trigger] rest[a] == less[k];
                    assert(list[a] != list[list.len() - 1]);
                }
            }
        }
        if !listed(list, x) {
            assert(list[list.len() - 1] != x);
            assert(!listed(rest, x)) by {
                if listed(rest, x) {
                    let i = choose|i: int| 0 <= i < rest.len() && #[trigger] rest[i] == x;
                    assert(list[i] == x);
                }
            }
            assert(rest.push(list.last()) =~= list);
        }
    }
}

/// Taking in an object is found under its new name, and changes what no other name finds.
pub proof fn inserting_keeps_other_names(a: ArenaModel, object: ObjectModel)
    requires
        a.valid(),
        a.slots.len() <= u32::MAX,
    ensures
        a.lookup(a.next_id()) is None,
        a.inserted(object).valid(),
        a.well_named() ==> a.inserted(object).well_named(),
        a.inserted(object).lookup(a.next_id()) == Some(named(object, a.next_id())),
        forall|id: ObjId|
            id != a.next_id() ==> #[trigger] a.inserted(object).lookup(id) == a.lookup(id),
{
    let id = a.next_id();
    let b = a.inserted(object);
    if a.free.len() > 0 {
        let last = a.free.len() - 1;
        assert(a.free[last] < a.slots.len() && a.slots[a.free[last] as int].object is None);
        assert forall|k: int| 0 <= k < b.free.len() implies (#[trigger] b.free[k]) < b.slots.len()
            && b.slots[b.free[k] as int].object is None by {
            assert(a.free[k] < a.slots.len());
            assert(a.free[k] != a.free[last]);
        }
    }
}

/// Removing an object makes its name find nothing, and changes what no other name finds.
pub proof fn removing_keeps_other_names(a: ArenaModel, id: ObjId)
    requires
        a.valid(),
    ensures
        a.removed(id).valid(),
        a.well_named() ==> a.removed(id).well_named(),
        a.removed(id).lookup(id) is None,
        forall|other: ObjId|
            other != id ==> #[trigger] a.removed(id).lookup(other) == a.lookup(other),
{
    if a.lookup(id) is Some {
        let b = a.removed(id);
        assert forall|k: int| 0 <= k < b.free.len() implies (#[trigger] b.free[k]) < b.slots.len()
            && b.slots[b.free[k] as int].object is None by {
            if k < a.free.len() {
                assert(a.free[k] < a.slots.len());
            }
        }
        assert(b.free.no_duplicates()) by {
            assert forall|i: int, j: int| 0 <= i < b.free.len() && 0 <= j < b.free.len() && i
                != j implies b.free[i] != b.free[j] by {
                if i < a.free.len() && j < a.free.len() {
                    assert(a.free[i] != a.free[j]);
                } else {
                    let k = if i < a.free.len() { i } else { j };
                    assert(a.slots[a.free[k] as int].object is None);
                }
            }
        }
    }
}

/// A stale name stays dead: once an object is removed, taking in another one in its place
/// does not make the old name find anything.
pub proof fn stale_names_find_nothing(a: ArenaModel, id: ObjId, object: ObjectModel)
    requires
        a.valid(),
        a.slots.len() <= u32::MAX,
        a.lookup(id) is Some,
    ensures
        a.removed(id).inserted(object).lookup(id) is None,
        a.removed(id).next_id().slot == id.slot,
{
    removing_keeps_other_names(a, id);
    inserting_keeps_other_names(a.removed(id), object);
}

/// Putting an object back is found under its own name, and changes what no name in another
/// slot finds.
pub proof fn restoring_keeps_other_slots(a: ArenaModel, object: ObjectModel)
    requires
        a.valid(),
    ensures
        a.restored(object).valid(),
        a.well_named() ==> a.restored(object).well_named(),
        a.restored(object).lookup(object.id) == Some(object),
        forall|id: ObjId|
            id.slot == object.id.slot && id != object.id ==> (#[trigger] a.restored(object).lookup(
                id,
            )) is None,
        forall|id: ObjId|
            id.slot != object.id.slot ==> #[trigger] a.restored(object).lookup(id) == a.lookup(id),
{
    let b = a.restored(object);
    lemma_without(a.free, object.id.slot);
    assert forall|k: int| 0 <= k < b.free.len() implies (#[trigger] b.free[k]) < b.slots.len()
        && b.slots[b.free[k] as int].object is None by {
        assert(listed(b.free, b.free[k]));
        assert(listed(a.free, b.free[k]));
        let i = choose|i: int| 0 <= i < a.free.len() && #[trigger] a.free[i] == b.free[k];
        assert(a.free[i] < a.slots.len());
    }
}

fn raise(next: u64, generation: u32) -> (r: u64)
    ensures
        r == raised(next, generation),
{
    if next > generation as u64 {
        next
    } else {
        generation as u64 + 1
    }
}

impl Slot {
    fn blank(floor: u32) -> (r: Slot)
        ensures
            r@ == blank(floor),
    {
        let next: u64 = if floor < 1 {
            1
        } else {
            floor as u64
        };
        Slot { generation: 0, object: None, next }
    }
}

impl ObjectArena {
    pub(crate) fn new() -> (r: ObjectArena)
        ensures
            r@ == ArenaModel::empty(),
            r@.valid(),
    {
        let r = ObjectArena { slots: Vec::new(), free: Vec::new(), floor: 0 };
        assert(r@ =~= ArenaModel::empty());
        r
    }

    /// Whether the next object can have a slot.
    pub(crate) fn has_slot(&self) -> (r: bool)
        ensures
            r == (self@.slots.len() <= u32::MAX),
    {
        self.slots.len() <= u32::MAX as usize
    }

    /// Take in an object and give it a name.
    pub(crate) fn insert(&mut self, object: Object) -> (r: ObjId)
        requires
            old(self)@.valid(),
            old(self)@.slots.len() <= u32::MAX,
        ensures
            r == old(self)@.next_id(),
            final(self)@ == old(self)@.inserted(object@),
            final(self)@.valid(),
    {
        let ghost before = self@;
        let ghost shown = object@;
        proof {
            inserting_keeps_other_names(before, shown);
        }
        let mut object = object;
        match self.free.pop() {
            Some(slot) => {
                proof {
                    assert(before.free[before.free.len() - 1] == slot);
                    assert(slot < before.slots.len());
                }
                let next: u64 = self.slots[slot as usize].next;
                let generation: u32 = if next <= u32::MAX as u64 {
                    next as u32
                } else {
                    self.slots[slot as usize].generation.wrapping_add(1)
                };
                assert(self.slots[slot as int]@ == before.slots[slot as int]);
                let id: ObjId = ObjId { slot, generation };
                object.id = id;
                assert(object@ == named(shown, id));
                self.slots.set(
                    slot as usize,
                    Slot { generation, object: Some(object), next: raise(next, generation) },
                );
                assert(self@ =~= before.inserted(shown));
                id
            },
            None => {
                let generation: u32 = self.floor;
                let id: ObjId = ObjId { slot: self.slots.len() as u32, generation };
                object.id = id;
                assert(object@ == named(shown, id));
                self.slots.push(
                    Slot { generation, object: Some(object), next: generation as u64 + 1 },
                );
                assert(self@ =~= before.inserted(shown));
                id
            },
        }
    }

    /// The object of a name.
    pub(crate) fn get(&self, id: ObjId) -> (r: Option<&Object>)
        ensures
            match r {
                Some(o) => self@.lookup(id) == Some(o@),
                None => self@.lookup(id) is None,
            },
    {
        if (id.slot as usize) < self.slots.len() {
            let slot = &self.slots[id.slot as usize];
            assert(self@.slots[id.slot as int] == slot@);
            if slot.generation == id.generation {
                return slot.object.as_ref();
            }
        }
        None
    }

    /// The object of a name, to be changed.
    pub(crate) fn get_mut(&mut self, id: ObjId) -> (r: Option<&mut Object>)
        ensures
            match r {
                Some(o) => old(self)@.lookup(id) == Some(o@) && final(self)@ == old(
                    self,
                )@.replaced(id, final(o)@),
                None => old(self)@.lookup(id) is None && final(self)@ == old(self)@,
            },
    {
        let ghost before = self@;
        if (id.slot as usize) < self.slots.len() {
            assert(before.slots[id.slot as int] == self.slots[id.slot as int]@);
            if self.slots[id.slot as usize].generation == id.generation {
                let slot = &mut self.slots[id.slot as usize];
                return slot.object.as_mut();
            }
        }
        None
    }
}

/// What references to objects show.
pub open spec fn shown(list: Seq<&Object>) -> Seq<ObjectModel> {
    Seq::new(list.len(), |i: int| list[i]@)
}

/// What a list of objects holds.
pub open spec fn models(list: Seq<Object>) -> Seq<ObjectModel> {
    Seq::new(list.len(), |i: int| list[i]@)
}

/// The first of the objects that names slot `n`.
pub open spec fn first_in_slot(objects: Seq<ObjectModel>, n: int) -> Option<ObjectModel>
    decreases objects.len(),
{
    if objects.len() == 0 {
        None
    } else {
        match first_in_slot(objects.drop_last(), n) {
            Some(o) => Some(o),
            None => if objects.last().id.slot == n {
                Some(objects.last())
            } else {
                None
            },
        }
    }
}

/// The slot that an object comes back in, empty where there is none. Generations below `floor`
/// may have been given out in it.
pub open spec fn slot_of(object: Option<ObjectModel>, floor: u32) -> SlotModel {
    match object {
        Some(o) => SlotModel {
            generation: o.id.generation,
            object: Some(o),
            next: raised(floor as u64, o.id.generation),
        },
        None => blank(floor),
    }
}

/// The numbers below `n` of slots that no object names, in order.
pub open spec fn gaps(objects: Seq<ObjectModel>, n: int) -> Seq<u32>
    decreases n,
{
    if n <= 0 {
        Seq::empty()
    } else if first_in_slot(objects, n - 1) is None {
        gaps(objects, n - 1).push((n - 1) as u32)
    } else {
        gaps(objects, n - 1)
    }
}

/// One more than the largest slot that the objects name.
pub open spec fn slots_named(objects: Seq<ObjectModel>) -> int
    decreases objects.len(),
{
    if objects.len() == 0 {
        0
    } else {
        let rest = slots_named(objects.drop_last());
        if objects.last().id.slot + 1 > rest {
            objects.last().id.slot + 1
        } else {
            rest
        }
    }
}

/// The arena of some objects, each in the slot and generation of its own name. Generations below
/// `floor` may have been given out in any slot, so new objects get none of them.
pub open spec fn arena_of(objects: Seq<ObjectModel>, floor: u32) -> ArenaModel {
    let n = slots_named(objects);
    ArenaModel {
        slots: Seq::new(n as nat, |i: int| slot_of(first_in_slot(objects, i), floor)),
        free: gaps(objects, n),
        floor,
    }
}

proof fn lemma_slots_named(objects: Seq<ObjectModel>)
    ensures
        0 <= slots_named(objects) <= u32::MAX + 1,
        forall|i: int|
            0 <= i < objects.len() ==> (#[trigger] objects[i]).id.slot < slots_named(objects),
    decreases objects.len(),
{
    if objects.len() > 0 {
        lemma_slots_named(objects.drop_last());
        assert forall|i: int| 0 <= i < objects.len() implies (#[trigger] objects[i]).id.slot
            < slots_named(objects) by {
            if i < objects.len() - 1 {
                assert(objects.drop_last()[i] == objects[i]);
            }
        }
    }
}

proof fn lemma_gaps(objects: Seq<ObjectModel>, n: int)
    requires
        0 <= n <= u32::MAX + 1,
    ensures
        gaps(objects, n).no_duplicates(),
        forall|k: int|
            0 <= k < gaps(objects, n).len() ==> (#[trigger] gaps(objects, n)[k]) < n
                && first_in_slot(objects, gaps(objects, n)[k] as int) is None,
    decreases n,
{
    if n > 0 {
        lemma_gaps(objects, n - 1);
        let rest = gaps(objects, n - 1);
        let now = gaps(objects, n);
        assert forall|k: int| 0 <= k < now.len() implies (#[trigger] now[k]) < n && first_in_slot(
            objects,
            now[k] as int,
        ) is None by {
            if k < rest.len() {
                assert(rest[k] < n - 1);
            }
        }
        assert(now.no_duplicates()) by {
            assert forall|i: int, j: int| 0 <= i < now.len() && 0 <= j < now.len() && i != j implies
                now[i] != now[j] by {
                if i < rest.len() && j < rest.len() {
                    assert(rest[i] != rest[j]);
                } else {
                    let k = if i < rest.len() { i } else { j };
                    assert(rest[k] < n - 1);
                }
            }
        }
    }
}

proof fn lemma_first_in_slot(objects: Seq<ObjectModel>, n: int)
    ensures
        first_in_slot(objects, n) matches Some(o) ==> o.id.slot == n,
    decreases objects.len(),
{
    if objects.len() > 0 {
        lemma_first_in_slot(objects.drop_last(), n);
    }
}

/// An arena made from objects is valid, and every object in it carries the name of its slot.
pub proof fn arena_of_is_valid(objects: Seq<ObjectModel>, floor: u32)
    ensures
        arena_of(objects, floor).valid(),
        arena_of(objects, floor).well_named(),
{
    let n = slots_named(objects);
    lemma_slots_named(objects);
    lemma_gaps(objects, n);
    let a = arena_of(objects, floor);
    assert forall|k: int| 0 <= k < a.free.len() implies (#[trigger] a.free[k]) < a.slots.len()
        && a.slots[a.free[k] as int].object is None by {
        assert(gaps(objects, n)[k] < n);
    }
    assert forall|i: int| 0 <= i < a.slots.len() implies ((#[trigger] a.slots[i]).object matches Some(
        o,
    ) ==> o.id.slot == i && o.id.generation == a.slots[i].generation) by {
        lemma_first_in_slot(objects, i);
    }
}

/// Live objects of a well named arena, slot by slot.
pub(crate) proof fn lemma_first_live(a: ArenaModel, n: int, i: int)
    requires
        a.well_named(),
        0 <= n <= a.slots.len(),
        0 <= i,
    ensures
        first_in_slot(live_upto(a.slots, n), i) == if i < n {
            a.slots[i].object
        } else {
            None
        },
    decreases n,
{
    if n > 0 {
        lemma_first_live(a, n - 1, i);
        let rest = live_upto(a.slots, n - 1);
        let now = live_upto(a.slots, n);
        if a.slots[n - 1].object is Some {
            assert(now.drop_last() =~= rest);
        }
    }
}

pub(crate) proof fn lemma_named_live(a: ArenaModel, n: int)
    requires
        a.well_named(),
        0 <= n <= a.slots.len(),
        a.slots.len() <= u32::MAX + 1,
    ensures
        slots_named(live_upto(a.slots, n)) <= n,
        forall|i: int|
            slots_named(live_upto(a.slots, n)) <= i < n ==> (#[trigger] a.slots[i]).object is None,
    decreases n,
{
    if n > 0 {
        lemma_named_live(a, n - 1);
        let rest = live_upto(a.slots, n - 1);
        let now = live_upto(a.slots, n);
        if a.slots[n - 1].object is Some {
            assert(now.drop_last() =~= rest);
        }
    }
}

/// Saving and loading keeps names: in the arena made from all objects of an arena, every name
/// finds what it found before, and the objects come in the same order.
pub proof fn reloading_keeps_names(a: ArenaModel, floor: u32)
    requires
        a.valid(),
        a.well_named(),
        a.slots.len() <= u32::MAX + 1,
    ensures
        forall|id: ObjId| #[trigger] arena_of(a.live(), floor).lookup(id) == a.lookup(id),
        arena_of(a.live(), floor).live() == a.live(),
{
    let objects = a.live();
    let b = arena_of(objects, floor);
    let n = a.slots.len() as int;
    lemma_named_live(a, n);
    lemma_slots_named(objects);
    assert forall|i: int| 0 <= i < b.slots.len() implies (#[trigger] b.slots[i]).object
        == a.slots[i].object by {
        lemma_first_live(a, n, i);
    }
    assert forall|id: ObjId| #[trigger] b.lookup(id) == a.lookup(id) by {
        let i = id.slot as int;
        if i < b.slots.len() {
            lemma_first_live(a, n, i);
            assert(b.slots[i].object == a.slots[i].object);
            assert(a.slots[i].object matches Some(o) ==> o.id.generation
                == a.slots[i].generation);
        } else if i < a.slots.len() {
            assert(a.slots[i].object is None);
        }
    }
    lemma_same_live(b.slots, a.slots, b.slots.len() as int);
    lemma_live_tail(a.slots, b.slots.len() as int, n);
}

pub(crate) proof fn lemma_same_live(a: Seq<SlotModel>, b: Seq<SlotModel>, n: int)
    requires
        n <= a.len(),
        n <= b.len(),
        forall|i: int| 0 <= i < n ==> (#[trigger] a[i]).object == b[i].object,
    ensures
        live_upto(a, n) == live_upto(b, n),
    decreases n,
{
    if n > 0 {
        lemma_same_live(a, b, n - 1);
        assert(a[n - 1].object == b[n - 1].object);
    }
}

pub(crate) proof fn lemma_live_tail(slots: Seq<SlotModel>, m: int, n: int)
    requires
        0 <= m <= n <= slots.len(),
        forall|i: int| m <= i < n ==> (#[trigger] slots[i]).object is None,
    ensures
        live_upto(slots, n) == live_upto(slots, m),
    decreases n,
{
    if m < n {
        lemma_live_tail(slots, m, n - 1);
        assert(slots[n - 1].object is None);
    }
}

impl ObjectArena {
    /// Remove the object of a name.
    pub(crate) fn remove(&mut self, id: ObjId) -> (r: Option<Object>)
        requires
            old(self)@.valid(),
        ensures
            object_model(r) == old(self)@.lookup(id),
            final(self)@ == old(self)@.removed(id),
            final(self)@.valid(),
    {
        let ghost before = self@;
        proof {
            removing_keeps_other_names(before, id);
        }
        if (id.slot as usize) >= self.slots.len() {
            return None;
        }
        assert(before.slots[id.slot as int] == self.slots[id.slot as int]@);
        if self.slots[id.slot as usize].generation != id.generation {
            return None;
        }
        let object: Option<Object> = self.slots[id.slot as usize].object.take();
        if object.is_some() {
            self.free.push(id.slot);
        }
        assert(self@ =~= before.removed(id));
        object
    }

    /// Put an object back at its own name, slot and generation.
    pub(crate) fn restore(&mut self, object: Object)
        requires
            old(self)@.valid(),
        ensures
            final(self)@ == old(self)@.restored(object@),
            final(self)@.valid(),
    {
        let ghost before = self@;
        let ghost shown = object@;
        proof {
            restoring_keeps_other_slots(before, shown);
        }
        let slot: u32 = object.id.slot;
        let at: usize = slot as usize;
        let ghost first = self.slots@.len() as int;
        while self.slots.len() <= at
            invariant
                before.slots.len() == first,
                first <= self.slots.len(),
                self.slots.len() <= at + 1 || self.slots.len() == first,
                self.free@ == before.free,
                self.floor == before.floor,
                forall|i: int| 0 <= i < first ==> (#[trigger] self.slots[i])@ == before.slots[i],
                forall|i: int|
                    first <= i < self.slots.len() ==> (#[trigger] self.slots[i])@ == blank(
                        before.floor,
                    ),
            decreases at + 1 - self.slots.len(),
        {
            let floor: u32 = self.floor;
            self.slots.push(Slot::blank(floor));
        }
        let mut free: Vec<u32> = Vec::new();
        let mut k: usize = 0;
        assert(before.free.take(0) =~= Seq::empty());
        while k < self.free.len()
            invariant
                k <= self.free.len(),
                self.free@ == before.free,
                free@ == without(before.free.take(k as int), slot),
            decreases self.free.len() - k,
        {
            proof {
                assert(before.free.take(k + 1).drop_last() =~= before.free.take(k as int));
            }
            if self.free[k] != slot {
                free.push(self.free[k]);
            }
            k = k + 1;
        }
        assert(before.free.take(k as int) =~= before.free);
        self.free = free;
        let generation: u32 = object.id.generation;
        let next: u64 = raise(self.slots[at].next, generation);
        assert(self.slots[at as int]@ == padded(before.slots, at as int, before.floor)[at as int]);
        self.slots.set(at, Slot { generation, object: Some(object), next });
        assert(self@ =~= before.restored(shown));
    }

    /// All objects, in the order of their slots.
    pub(crate) fn objects(&self) -> (r: Vec<&Object>)
        ensures
            shown(r@) == self@.live(),
    {
        let mut list: Vec<&Object> = Vec::new();
        let mut i: usize = 0;
        assert(shown(list@) =~= Seq::empty());
        while i < self.slots.len()
            invariant
                i <= self.slots.len(),
                shown(list@) == live_upto(self@.slots, i as int),
            decreases self.slots.len() - i,
        {
            assert(self@.slots[i as int] == self.slots[i as int]@);
            match &self.slots[i].object {
                Some(o) => {
                    let ghost before = list@;
                    list.push(o);
                    assert(shown(list@) =~= shown(before).push(o@));
                },
                None => {},
            }
            i = i + 1;
        }
        list
    }

    /// The arena of some objects, each in the slot and generation of its own name, and with no
    /// generation below `floor` left for new ones.
    pub(crate) fn from_objects(objects: &Vec<Object>, floor: u32) -> (r: ObjectArena)
        ensures
            r@ == arena_of(models(objects@), floor),
            r@.valid(),
    {
        let ghost all = models(objects@);
        proof {
            arena_of_is_valid(all, floor);
            lemma_slots_named(all);
        }
        let mut n: u64 = 0;
        let mut i: usize = 0;
        assert(all.take(0) =~= Seq::empty());
        while i < objects.len()
            invariant
                i <= objects.len(),
                all == models(objects@),
                n == slots_named(all.take(i as int)),
                n <= u32::MAX + 1,
            decreases objects.len() - i,
        {
            proof {
                assert(all.take(i + 1).drop_last() =~= all.take(i as int));
                assert(all.take(i + 1).last() == objects[i as int]@);
            }
            let above: u64 = objects[i].id.slot as u64 + 1;
            if above > n {
                n = above;
            }
            i = i + 1;
        }
        assert(all.take(i as int) =~= all);
        let mut slots: Vec<Slot> = Vec::new();
        let mut free: Vec<u32> = Vec::new();
        let mut s: u64 = 0;
        while s < n
            invariant
                s <= n,
                n <= u32::MAX + 1,
                all == models(objects@),
                slots.len() == s,
                forall|i: int|
                    0 <= i < s ==> (#[trigger] slots[i])@ == slot_of(first_in_slot(all, i), floor),
                free@ == gaps(all, s as int),
            decreases n - s,
        {
            let slot: u32 = s as u32;
            let found: Option<usize> = find_in_slot(objects, slot);
            match found {
                Some(k) => {
                    let object = objects[k].copy();
                    let generation: u32 = object.id.generation;
                    let next: u64 = raise(floor as u64, generation);
                    slots.push(Slot { generation, object: Some(object), next });
                },
                None => {
                    slots.push(Slot::blank(floor));
                    free.push(slot);
                },
            }
            s = s + 1;
        }
        let r = ObjectArena { slots, free, floor };
        assert(r@ =~= arena_of(all, floor));
        r
    }

    /// The number of objects.
    pub(crate) fn count(&self) -> (r: usize)
        ensures
            r == self@.live().len(),
    {
        let list = self.objects();
        assert(shown(list@).len() == list.len());
        list.len()
    }
}

/// The place of the first of the objects that names a slot.
fn find_in_slot(objects: &Vec<Object>, slot: u32) -> (r: Option<usize>)
    ensures
        match r {
            Some(k) => k < objects.len() && first_in_slot(models(objects@), slot as int) == Some(
                objects[k as int]@,
            ),
            None => first_in_slot(models(objects@), slot as int) is None,
        },
{
    let ghost all = models(objects@);
    let mut found: Option<usize> = None;
    let mut i: usize = 0;
    assert(all.take(0) =~= Seq::empty());
    while i < objects.len()
        invariant
            i <= objects.len(),
            all == models(objects@),
            match found {
                Some(k) => k < i && first_in_slot(all.take(i as int), slot as int) == Some(
                    objects[k as int]@,
                ),
                None => first_in_slot(all.take(i as int), slot as int) is None,
            },
        decreases objects.len() - i,
    {
        proof {
            assert(all.take(i + 1).drop_last() =~= all.take(i as int));
            assert(all.take(i + 1).last() == objects[i as int]@);
        }
        if found.is_none() && objects[i].id.slot == slot {
            found = Some(i);
        }
        i = i + 1;
    }
    assert(all.take(i as int) =~= all);
    found
}

/// Another object under a name that is found leaves the arena valid, and changes what no other
/// name finds.
pub proof fn replacing_keeps_other_names(a: ArenaModel, id: ObjId, object: ObjectModel)
    requires
        a.valid(),
        a.lookup(id) is Some,
    ensures
        a.replaced(id, object).valid(),
        a.well_named() && object.id == id ==> a.replaced(id, object).well_named(),
        a.replaced(id, object).lookup(id) == Some(object),
        forall|other: ObjId|
            other != id ==> #[trigger] a.replaced(id, object).lookup(other) == a.lookup(other),
{
    let b = a.replaced(id, object);
    assert forall|k: int| 0 <= k < b.free.len() implies (#[trigger] b.free[k]) < b.slots.len()
        && b.slots[b.free[k] as int].object is None by {
        assert(a.free[k] < a.slots.len());
    }
}

} // verus!
