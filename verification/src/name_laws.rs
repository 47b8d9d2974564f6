//! What the names of objects promise: a name is given out once, and the name of an object that is
//! gone finds nothing else, across edits, undo and redo, and saving and loading.
use crate::arena::{
    blank, inserting_keeps_other_names, lemma_first_live, lemma_named_live, live_upto, padded,
    reloading_keeps_names, removing_keeps_other_names, replacing_keeps_other_names, slot_of,
    ArenaModel,
};
use crate::document::{
    additions, captured, changes, done_again, edits_since, lemma_put_valid, put, recorded,
    taken_back, DocModel, EditModel,
};
use crate::object::{ObjId, ObjectModel};
use vstd::prelude::*;

verus! {

impl ArenaModel {
    /// Whether every generation that was given out is below `n`.
    pub open spec fn counted(self, n: u32) -> bool {
        &&& self.floor <= n
        &&& forall|i: int| 0 <= i < self.slots.len() ==> (#[trigger] self.slots[i]).next <= n
    }
}

/// Whether the generation in the name of a state is below `n`.
pub open spec fn state_counted(state: Option<ObjectModel>, n: u32) -> bool {
    state matches Some(o) ==> o.id.generation < n
}

/// Whether the generations in the names of all states of a transaction are below `n`.
pub open spec fn edits_counted(edits: Seq<EditModel>, n: u32) -> bool {
    forall|i: int|
        0 <= i < edits.len() ==> state_counted((#[trigger] edits[i]).before, n) && state_counted(
            edits[i].after,
            n,
        )
}

/// Whether that is so of all transactions of a history.
pub open spec fn history_counted(list: Seq<Seq<EditModel>>, n: u32) -> bool {
    forall|t: int| 0 <= t < list.len() ==> edits_counted(#[trigger] list[t], n)
}

/// Whether the generations in the names of captured states are below `n`.
pub open spec fn captures_counted(before: Seq<(ObjId, ObjectModel)>, n: u32) -> bool {
    forall|k: int| 0 <= k < before.len() ==> (#[trigger] before[k]).1.id.generation < n
}

impl DocModel {
    /// Whether every generation in a name that was given out is below the number of objects made,
    /// in the arena and in the history.
    pub open spec fn counted(self) -> bool {
        &&& self.arena.counted(self.next_serial)
        &&& history_counted(self.past, self.next_serial)
        &&& history_counted(self.future, self.next_serial)
        &&& self.pending matches Some(p) ==> captures_counted(p.before, self.next_serial)
    }

    /// Whether objects carry the names of their slots, and all names are counted. A new document
    /// is orderly, and every operation keeps it so.
    pub open spec fn orderly(self) -> bool {
        &&& self.valid()
        &&& self.arena.well_named()
        &&& self.arena.slots.len() <= u32::MAX + 1
        &&& self.counted()
    }

    /// Whether all names that were given out before still count as given out.
    pub open spec fn remembers(self, before: DocModel) -> bool {
        forall|id: ObjId| before.arena.spent(id) ==> #[trigger] self.arena.spent(id)
    }
}

/// A new document is orderly.
pub proof fn new_documents_are_orderly()
    ensures
        DocModel::empty().orderly(),
{
}

proof fn lemma_history_grows(list: Seq<Seq<EditModel>>, n: u32, m: u32)
    requires
        history_counted(list, n),
        n <= m,
    ensures
        history_counted(list, m),
{
    assert forall|t: int| 0 <= t < list.len() implies edits_counted(#[trigger] list[t], m) by {
        assert(edits_counted(list[t], n));
        assert forall|i: int| 0 <= i < list[t].len() implies state_counted(
            (#[trigger] list[t][i]).before,
            m,
        ) && state_counted(list[t][i].after, m) by {
            assert(state_counted(list[t][i].before, n) && state_counted(list[t][i].after, n));
        }
    }
}

/// A new object gets a name that was not given out before, and from then on is. All names given
/// out before stay given out.
pub proof fn new_names_are_new(doc: DocModel, o: ObjectModel)
    requires
        doc.orderly(),
        doc.has_room(),
    ensures
        !doc.arena.spent(doc.arena.next_id()),
        doc.with_new(o).arena.spent(doc.arena.next_id()),
        doc.with_new(o).remembers(doc),
        doc.with_new(o).orderly(),
{
    let a = doc.arena;
    let b = a.inserted(o);
    let n = doc.next_serial;
    let m = doc.serial();
    inserting_keeps_other_names(a, o);
    lemma_history_grows(doc.past, n, m);
    lemma_history_grows(doc.future, n, m);
    if a.free.len() > 0 {
        let last = a.free.len() - 1;
        assert(a.free[last] < a.slots.len());
        assert(a.slots[a.free[last] as int].next <= n);
    }
    assert forall|i: int| 0 <= i < b.slots.len() implies (#[trigger] b.slots[i]).next <= m by {
        if i < a.slots.len() {
            assert(a.slots[i].next <= n);
        }
    }
}

/// Removing an object keeps a document orderly, and its name given out.
pub proof fn removing_keeps_order(doc: DocModel, id: ObjId)
    requires
        doc.orderly(),
    ensures
        doc.removed(id).orderly(),
        doc.removed(id).remembers(doc),
{
    removing_keeps_other_names(doc.arena, id);
    let b = doc.arena.removed(id);
    assert forall|i: int| 0 <= i < b.slots.len() implies (#[trigger] b.slots[i]).next
        <= doc.next_serial by {
        assert(doc.arena.slots[i].next <= doc.next_serial);
    }
}

/// Changing an object, but not its name, keeps a document orderly.
pub proof fn changing_keeps_order(doc: DocModel, id: ObjId, o: ObjectModel)
    requires
        doc.orderly(),
        doc.arena.lookup(id) is Some,
        o.id == id,
    ensures
        (DocModel { arena: doc.arena.replaced(id, o), ..doc }).orderly(),
        (DocModel { arena: doc.arena.replaced(id, o), ..doc }).remembers(doc),
{
    replacing_keeps_other_names(doc.arena, id, o);
    let b = doc.arena.replaced(id, o);
    assert forall|i: int| 0 <= i < b.slots.len() implies (#[trigger] b.slots[i]).next
        <= doc.next_serial by {
        assert(doc.arena.slots[i].next <= doc.next_serial);
    }
}

/// A name that finds something is counted.
proof fn lemma_found_counted(a: ArenaModel, id: ObjId, n: u32)
    requires
        a.valid(),
        a.well_named(),
        a.counted(n),
    ensures
        state_counted(a.lookup(id), n),
        a.lookup(id) is Some ==> a.spent(id),
{
    if a.lookup(id) is Some {
        let s = a.slots[id.slot as int];
        assert(s.generation < s.next && s.next <= n);
        assert(s.object matches Some(o) ==> o.id.generation == s.generation);
    }
}

proof fn lemma_captured_counted(a: ArenaModel, ids: Seq<ObjId>, n: u32)
    requires
        a.valid(),
        a.well_named(),
        a.counted(n),
    ensures
        captures_counted(captured(a, ids), n),
    decreases ids.len(),
{
    if ids.len() > 0 {
        lemma_captured_counted(a, ids.drop_last(), n);
        lemma_found_counted(a, ids.last(), n);
    }
}

/// A checkpoint keeps a document orderly.
pub proof fn checkpoints_keep_order(doc: DocModel, ids: Seq<ObjId>)
    requires
        doc.orderly(),
    ensures
        doc.checkpointed(ids).orderly(),
        doc.checkpointed(ids).remembers(doc),
{
    lemma_captured_counted(doc.arena, ids, doc.next_serial);
}

proof fn lemma_changes_counted(before: Seq<(ObjId, ObjectModel)>, a: ArenaModel, n: u32)
    requires
        a.valid(),
        a.well_named(),
        a.counted(n),
        captures_counted(before, n),
    ensures
        edits_counted(changes(before, a), n),
    decreases before.len(),
{
    if before.len() > 0 {
        assert forall|k: int| 0 <= k < before.drop_last().len() implies (
        #[trigger] before.drop_last()[k]).1.id.generation < n by {
            assert(before[k].1.id.generation < n);
        }
        lemma_changes_counted(before.drop_last(), a, n);
        let last = before[before.len() - 1];
        assert(last.1.id.generation < n);
        lemma_found_counted(a, last.0, n);
    }
}

proof fn lemma_live_counted(a: ArenaModel, upto: int, n: u32)
    requires
        a.valid(),
        a.well_named(),
        a.counted(n),
        0 <= upto <= a.slots.len(),
    ensures
        forall|k: int|
            0 <= k < live_upto(a.slots, upto).len() ==> (#[trigger] live_upto(
                a.slots,
                upto,
            )[k]).id.generation < n,
    decreases upto,
{
    if upto > 0 {
        lemma_live_counted(a, upto - 1, n);
        let s = a.slots[upto - 1];
        assert(s.generation < s.next && s.next <= n);
        assert(s.object matches Some(o) ==> o.id.generation == s.generation);
    }
}

proof fn lemma_additions_counted(objects: Seq<ObjectModel>, existing: Set<u64>, n: u32)
    requires
        forall|k: int| 0 <= k < objects.len() ==> (#[trigger] objects[k]).id.generation < n,
    ensures
        edits_counted(additions(objects, existing), n),
    decreases objects.len(),
{
    if objects.len() > 0 {
        assert forall|k: int| 0 <= k < objects.drop_last().len() implies (
        #[trigger] objects.drop_last()[k]).id.generation < n by {
            assert(objects[k].id.generation < n);
        }
        lemma_additions_counted(objects.drop_last(), existing, n);
        assert(objects[objects.len() - 1].id.generation < n);
    }
}

proof fn lemma_recorded_counted(past: Seq<Seq<EditModel>>, edits: Seq<EditModel>, n: u32)
    requires
        history_counted(past, n),
        edits_counted(edits, n),
    ensures
        history_counted(recorded(past, edits), n),
{
    let more = past.push(edits);
    assert(history_counted(more, n));
    assert forall|t: int| 0 <= t < recorded(past, edits).len() implies edits_counted(
        #[trigger] recorded(past, edits)[t],
        n,
    ) by {
        if recorded(past, edits).len() < more.len() {
            assert(edits_counted(more[t + 1], n));
        } else {
            assert(edits_counted(more[t], n));
        }
    }
}

/// A commit keeps a document orderly.
pub proof fn commits_keep_order(doc: DocModel)
    requires
        doc.orderly(),
    ensures
        doc.committed().orderly(),
        doc.committed().remembers(doc),
{
    if doc.pending is Some {
        let p = doc.pending->0;
        let a = doc.arena;
        let n = doc.next_serial;
        lemma_changes_counted(p.before, a, n);
        lemma_live_counted(a, a.slots.len() as int, n);
        lemma_additions_counted(a.live(), p.existing, n);
        let edits = edits_since(p, a);
        assert(edits_counted(edits, n)) by {
            let first = changes(p.before, a);
            let second = additions(a.live(), p.existing);
            assert forall|i: int| 0 <= i < edits.len() implies state_counted(
                (#[trigger] edits[i]).before,
                n,
            ) && state_counted(edits[i].after, n) by {
                if i < first.len() {
                    assert(state_counted(first[i].before, n) && state_counted(first[i].after, n));
                } else {
                    let e = second[i - first.len()];
                    assert(state_counted(e.before, n) && state_counted(e.after, n));
                }
            }
        }
        lemma_recorded_counted(doc.past, edits, n);
    }
}

/// Recording the edit of an object from a state under a name that was given out keeps a document
/// orderly.
pub proof fn recording_keeps_order(doc: DocModel, before: ObjectModel)
    requires
        doc.orderly(),
        before.id.generation < doc.next_serial,
    ensures
        doc.noted(before).orderly(),
        doc.noted(before).remembers(doc),
{
    lemma_found_counted(doc.arena, before.id, doc.next_serial);
    let e = EditModel {
        id: before.id,
        before: Some(before),
        after: doc.arena.lookup(before.id),
    };
    let edits = seq![e];
    assert(edits_counted(edits, doc.next_serial));
    lemma_recorded_counted(doc.past, edits, doc.next_serial);
}

proof fn lemma_put_counted(
    state: (ArenaModel, Option<ObjId>, Option<usize>),
    id: ObjId,
    target: Option<ObjectModel>,
    n: u32,
)
    requires
        state.0.valid(),
        state.0.well_named(),
        state.0.slots.len() <= u32::MAX + 1,
        state.0.counted(n),
        state_counted(target, n),
    ensures
        put(state, id, target).0.valid(),
        put(state, id, target).0.well_named(),
        put(state, id, target).0.slots.len() <= u32::MAX + 1,
        put(state, id, target).0.counted(n),
        forall|i: ObjId| state.0.spent(i) ==> #[trigger] put(state, id, target).0.spent(i),
{
    lemma_put_valid(state, id, target);
    let a = state.0;
    let b = put(state, id, target).0;
    match target {
        Some(o) => {
            let slot = o.id.slot as int;
            let pad = padded(a.slots, slot, a.floor);
            assert forall|i: int| 0 <= i < b.slots.len() implies (#[trigger] b.slots[i]).next
                <= n by {
                if i < a.slots.len() {
                    assert(a.slots[i].next <= n);
                    assert(pad[i] == a.slots[i]);
                } else {
                    assert(pad[i] == blank(a.floor));
                }
            }
            assert forall|i: ObjId| a.spent(i) implies #[trigger] b.spent(i) by {
                if i.slot < a.slots.len() {
                    assert(pad[i.slot as int] == a.slots[i.slot as int]);
                } else if i.slot < b.slots.len() {
                    assert(pad[i.slot as int] == blank(a.floor));
                }
            }
        },
        None => {
            assert forall|i: int| 0 <= i < b.slots.len() implies (#[trigger] b.slots[i]).next
                <= n by {
                assert(a.slots[i].next <= n);
            }
        },
    }
}

proof fn lemma_taken_back_counted(
    state: (ArenaModel, Option<ObjId>, Option<usize>),
    edits: Seq<EditModel>,
    k: int,
    n: u32,
)
    requires
        state.0.valid(),
        state.0.well_named(),
        state.0.slots.len() <= u32::MAX + 1,
        state.0.counted(n),
        edits_counted(edits, n),
        0 <= k <= edits.len(),
    ensures
        taken_back(state, edits, k).0.valid(),
        taken_back(state, edits, k).0.well_named(),
        taken_back(state, edits, k).0.slots.len() <= u32::MAX + 1,
        taken_back(state, edits, k).0.counted(n),
        forall|i: ObjId| state.0.spent(i) ==> #[trigger] taken_back(state, edits, k).0.spent(i),
    decreases edits.len() - k,
{
    if k < edits.len() {
        lemma_taken_back_counted(state, edits, k + 1, n);
        assert(state_counted(edits[k].before, n));
        let later = taken_back(state, edits, k + 1);
        lemma_put_counted(later, edits[k].id, edits[k].before, n);
        assert forall|i: ObjId| state.0.spent(i) implies #[trigger] taken_back(
            state,
            edits,
            k,
        ).0.spent(i) by {
            assert(later.0.spent(i));
        }
    }
}

proof fn lemma_done_again_counted(
    state: (ArenaModel, Option<ObjId>, Option<usize>),
    edits: Seq<EditModel>,
    k: int,
    n: u32,
)
    requires
        state.0.valid(),
        state.0.well_named(),
        state.0.slots.len() <= u32::MAX + 1,
        state.0.counted(n),
        edits_counted(edits, n),
        0 <= k <= edits.len(),
    ensures
        done_again(state, edits, k).0.valid(),
        done_again(state, edits, k).0.well_named(),
        done_again(state, edits, k).0.slots.len() <= u32::MAX + 1,
        done_again(state, edits, k).0.counted(n),
        forall|i: ObjId| state.0.spent(i) ==> #[trigger] done_again(state, edits, k).0.spent(i),
    decreases k,
{
    if k > 0 {
        lemma_done_again_counted(state, edits, k - 1, n);
        assert(state_counted(edits[k - 1].after, n));
        let sooner = done_again(state, edits, k - 1);
        lemma_put_counted(sooner, edits[k - 1].id, edits[k - 1].after, n);
        assert forall|i: ObjId| state.0.spent(i) implies #[trigger] done_again(
            state,
            edits,
            k,
        ).0.spent(i) by {
            assert(sooner.0.spent(i));
        }
    }
}

/// Undo keeps a document orderly, and names given out stay given out.
pub proof fn undo_keeps_order(doc: DocModel)
    requires
        doc.orderly(),
    ensures
        doc.undone().orderly(),
        doc.undone().remembers(doc),
{
    if doc.past.len() > 0 {
        let edits = doc.past[doc.past.len() - 1];
        assert(edits_counted(edits, doc.next_serial));
        let state = (doc.arena, doc.selection, doc.selected_face);
        lemma_taken_back_counted(state, edits, 0, doc.next_serial);
        let past = doc.past.drop_last();
        assert forall|t: int| 0 <= t < past.len() implies edits_counted(
            #[trigger] past[t],
            doc.next_serial,
        ) by {
            assert(edits_counted(doc.past[t], doc.next_serial));
        }
    }
}

/// Redo keeps a document orderly, and names given out stay given out.
pub proof fn redo_keeps_order(doc: DocModel)
    requires
        doc.orderly(),
    ensures
        doc.redone().orderly(),
        doc.redone().remembers(doc),
{
    if doc.future.len() > 0 {
        let edits = doc.future[doc.future.len() - 1];
        assert(edits_counted(edits, doc.next_serial));
        let state = (doc.arena, doc.selection, doc.selected_face);
        lemma_done_again_counted(state, edits, edits.len() as int, doc.next_serial);
        let future = doc.future.drop_last();
        assert forall|t: int| 0 <= t < future.len() implies edits_counted(
            #[trigger] future[t],
            doc.next_serial,
        ) by {
            assert(edits_counted(doc.future[t], doc.next_serial));
        }
    }
}

/// Saving and loading keeps a document orderly, and names that were given out before count as
/// given out afterwards. It takes no more slots.
pub proof fn reloading_keeps_order(doc: DocModel)
    requires
        doc.orderly(),
    ensures
        doc.saved().loaded().orderly(),
        doc.saved().loaded().remembers(doc),
        doc.saved().loaded().arena.slots.len() <= doc.arena.slots.len(),
{
    let a = doc.arena;
    let n = doc.next_serial;
    let objects = a.live();
    let b = doc.saved().loaded().arena;
    crate::arena::arena_of_is_valid(objects, n);
    lemma_named_live(a, a.slots.len() as int);
    assert forall|i: int| 0 <= i < b.slots.len() implies (#[trigger] b.slots[i]).next <= n by {
        lemma_first_live(a, a.slots.len() as int, i);
        assert(b.slots[i] == slot_of(a.slots[i].object, n));
        assert(a.slots[i].generation < a.slots[i].next && a.slots[i].next <= n);
        assert(a.slots[i].object matches Some(o) ==> o.id.generation == a.slots[i].generation);
    }
    assert forall|id: ObjId| a.spent(id) implies #[trigger] b.spent(id) by {
        let i = id.slot as int;
        if i < a.slots.len() {
            assert(a.slots[i].next <= n);
        }
        if i < b.slots.len() {
            assert(b.slots[i].next >= n);
        }
    }
}

/// The name of an object that is gone finds nothing, however often a new object is made, before
/// or after the document is saved and loaded.
pub proof fn dead_names_stay_dead(doc: DocModel, o: ObjectModel, id: ObjId)
    requires
        doc.orderly(),
        doc.has_room(),
        doc.arena.spent(id),
        doc.arena.lookup(id) is None,
    ensures
        doc.with_new(o).arena.spent(id),
        doc.with_new(o).arena.lookup(id) is None,
        doc.saved().loaded().arena.lookup(id) is None,
        doc.saved().loaded().with_new(o).arena.spent(id),
        doc.saved().loaded().with_new(o).arena.lookup(id) is None,
{
    new_names_are_new(doc, o);
    inserting_keeps_other_names(doc.arena, o);
    let loaded = doc.saved().loaded();
    reloading_keeps_order(doc);
    reloading_keeps_names(doc.arena, doc.next_serial);
    new_names_are_new(loaded, o);
    inserting_keeps_other_names(loaded.arena, o);
    assert(loaded.arena.spent(id));
}

/// An object that is removed leaves a dead name: no object that is made afterwards gets it, before
/// or after the document is saved and loaded.
pub proof fn removed_names_stay_dead(doc: DocModel, o: ObjectModel, id: ObjId)
    requires
        doc.orderly(),
        doc.has_room(),
        doc.arena.lookup(id) is Some,
    ensures
        doc.removed(id).with_new(o).arena.lookup(id) is None,
        doc.removed(id).saved().loaded().arena.lookup(id) is None,
        doc.removed(id).saved().loaded().with_new(o).arena.lookup(id) is None,
{
    lemma_found_counted(doc.arena, id, doc.next_serial);
    removing_keeps_order(doc, id);
    removing_keeps_other_names(doc.arena, id);
    assert(doc.removed(id).arena.spent(id));
    dead_names_stay_dead(doc.removed(id), o, id);
}

} // verus!
