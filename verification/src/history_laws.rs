//! What undo and redo promise, over whole transactions.
use crate::arena::{lemma_live_tail, lemma_same_live, live_upto, ArenaModel};
use crate::document::{
    additions, captured, changes, codes, done_again, edits_since, id_code, is_edit, lemma_codes,
    lemma_put_valid, put, recorded, taken_back, DocModel, EditModel, PendingModel, HISTORY_CAP,
};
use crate::halfedge::lemma_pair_code;
use crate::object::{alike, alike_to_itself, ObjId, ObjectModel};
use vstd::prelude::*;

verus! {

/// The object in a slot.
spec fn content(a: ArenaModel, s: u32) -> Option<ObjectModel> {
    if s < a.slots.len() {
        a.slots[s as int].object
    } else {
        None
    }
}

/// A name finds what is in its slot, if that carries the name.
proof fn lemma_content(a: ArenaModel, id: ObjId)
    requires
        a.well_named(),
    ensures
        a.lookup(id) == match content(a, id.slot) {
            Some(o) => if o.id == id {
                Some(o)
            } else {
                None
            },
            None => None,
        },
{
    if id.slot < a.slots.len() {
        assert(a.slots[id.slot as int].object matches Some(o) ==> o.id.slot == id.slot
            && o.id.generation == a.slots[id.slot as int].generation);
    }
}

/// The content of slots after one object was put into a state.
proof fn lemma_put_content(
    state: (ArenaModel, Option<ObjId>, Option<usize>),
    id: ObjId,
    target: Option<ObjectModel>,
    s: u32,
)
    requires
        state.0.valid(),
        state.0.well_named(),
        target matches Some(o) ==> o.id == id,
    ensures
        put(state, id, target).0.valid(),
        put(state, id, target).0.well_named(),
        content(put(state, id, target).0, s) == if s != id.slot {
            content(state.0, s)
        } else {
            match target {
                Some(o) => Some(o),
                None => match content(state.0, s) {
                    Some(o) => if o.id == id {
                        None
                    } else {
                        Some(o)
                    },
                    None => None,
                },
            }
        },
{
    lemma_put_valid(state, id, target);
    lemma_content(state.0, id);
}

/// Whether the states that edits hold carry the names of the edits.
spec fn well_formed(edits: Seq<EditModel>) -> bool {
    forall|i: int|
        0 <= i < edits.len() ==> ((#[trigger] edits[i]).before matches Some(o) ==> o.id
            == edits[i].id) && (edits[i].after matches Some(o) ==> o.id == edits[i].id)
}

/// Taking edits back changes no slot that none of them names.
proof fn lemma_taken_back_same(
    state: (ArenaModel, Option<ObjId>, Option<usize>),
    edits: Seq<EditModel>,
    lo: int,
    hi: int,
    s: u32,
)
    requires
        state.0.valid(),
        state.0.well_named(),
        well_formed(edits),
        0 <= lo <= hi <= edits.len(),
        forall|i: int| lo <= i < hi ==> (#[trigger] edits[i]).id.slot != s,
    ensures
        taken_back(state, edits, lo).0.valid(),
        taken_back(state, edits, lo).0.well_named(),
        content(taken_back(state, edits, lo).0, s) == content(taken_back(state, edits, hi).0, s),
    decreases edits.len() - lo,
{
    if lo < edits.len() {
        if lo < hi {
            lemma_taken_back_same(state, edits, lo + 1, hi, s);
        } else {
            lemma_taken_back_same(state, edits, lo + 1, lo + 1, s);
        }
        assert(edits[lo].before matches Some(o) ==> o.id == edits[lo].id);
        lemma_put_content(taken_back(state, edits, lo + 1), edits[lo].id, edits[lo].before, s);
    }
}

/// Doing edits again changes no slot that none of them names.
proof fn lemma_done_again_same(
    state: (ArenaModel, Option<ObjId>, Option<usize>),
    edits: Seq<EditModel>,
    lo: int,
    hi: int,
    s: u32,
)
    requires
        state.0.valid(),
        state.0.well_named(),
        well_formed(edits),
        0 <= lo <= hi <= edits.len(),
        forall|i: int| lo <= i < hi ==> (#[trigger] edits[i]).id.slot != s,
    ensures
        done_again(state, edits, hi).0.valid(),
        done_again(state, edits, hi).0.well_named(),
        content(done_again(state, edits, hi).0, s) == content(done_again(state, edits, lo).0, s),
    decreases hi,
{
    if hi > 0 {
        if lo < hi {
            lemma_done_again_same(state, edits, lo, hi - 1, s);
        } else {
            lemma_done_again_same(state, edits, hi - 1, hi - 1, s);
        }
        assert(edits[hi - 1].after matches Some(o) ==> o.id == edits[hi - 1].id);
        lemma_put_content(
            done_again(state, edits, hi - 1),
            edits[hi - 1].id,
            edits[hi - 1].after,
            s,
        );
    }
}

/// The objects of a well named arena are what their names find.
proof fn lemma_live(a: ArenaModel, n: int)
    requires
        a.well_named(),
        0 <= n <= a.slots.len(),
    ensures
        forall|k: int|
            0 <= k < live_upto(a.slots, n).len() ==> (#[trigger] live_upto(a.slots, n)[k]).id.slot
                < n && content(a, live_upto(a.slots, n)[k].id.slot) == Some(
                live_upto(a.slots, n)[k],
            ),
        forall|s: u32|
            s < n && (#[trigger] content(a, s)) is Some ==> exists|k: int|
                0 <= k < live_upto(a.slots, n).len() && #[trigger] live_upto(a.slots, n)[k]
                    == content(a, s)->0,
    decreases n,
{
    if n > 0 {
        lemma_live(a, n - 1);
        let rest = live_upto(a.slots, n - 1);
        let now = live_upto(a.slots, n);
        assert(a.slots[n - 1].object matches Some(o) ==> o.id.slot == n - 1);
        assert forall|k: int| 0 <= k < now.len() implies (#[trigger] now[k]).id.slot < n && content(
            a,
            now[k].id.slot,
        ) == Some(now[k]) by {
            if k < rest.len() {
                assert(rest[k] == now[k]);
            }
        }
        assert forall|s: u32| s < n && (#[trigger] content(a, s)) is Some implies exists|k: int|
            0 <= k < now.len() && #[trigger] now[k] == content(a, s)->0 by {
            if s < n - 1 {
                let k = choose|k: int|
                    0 <= k < rest.len() && #[trigger] rest[k] == content(a, s)->0;
                assert(now[k] == rest[k]);
            } else {
                assert(now[now.len() - 1] == content(a, s)->0);
            }
        }
    }
}

/// What a capture holds: states that their names find.
proof fn lemma_captured(a: ArenaModel, ids: Seq<ObjId>)
    ensures
        forall|i: int|
            0 <= i < captured(a, ids).len() ==> a.lookup((#[trigger] captured(a, ids)[i]).0) == Some(
                captured(a, ids)[i].1,
            ),
    decreases ids.len(),
{
    if ids.len() > 0 {
        let rest = captured(a, ids.drop_last());
        let now = captured(a, ids);
        lemma_captured(a, ids.drop_last());
        assert forall|i: int| 0 <= i < now.len() implies a.lookup((#[trigger] now[i]).0) == Some(
            now[i].1,
        ) by {
            if i < rest.len() {
                assert(rest[i] == now[i]);
            }
        }
    }
}

/// Whether an edit is the change of captured state `j`.
spec fn changes_state(
    before: Seq<(ObjId, ObjectModel)>,
    a: ArenaModel,
    edit: EditModel,
    j: int,
) -> bool {
    &&& 0 <= j < before.len()
    &&& edit.id == before[j].0
    &&& edit.before == Some(before[j].1)
    &&& edit.after == a.lookup(before[j].0)
    &&& is_edit(before[j].1, a.lookup(before[j].0))
}

/// Whether an edit is the change of some captured state.
spec fn is_change(before: Seq<(ObjId, ObjectModel)>, a: ArenaModel, edit: EditModel) -> bool {
    exists|j: int| #[trigger] changes_state(before, a, edit, j)
}

/// Changes are the captured states that are edits.
proof fn lemma_changes(before: Seq<(ObjId, ObjectModel)>, a: ArenaModel)
    ensures
        forall|i: int|
            0 <= i < changes(before, a).len() ==> is_change(
                before,
                a,
                #[trigger] changes(before, a)[i],
            ),
    decreases before.len(),
{
    if before.len() > 0 {
        let less = before.drop_last();
        lemma_changes(less, a);
        let rest = changes(less, a);
        let now = changes(before, a);
        assert forall|i: int| 0 <= i < now.len() implies is_change(before, a, #[trigger] now[i]) by {
            if i < rest.len() {
                assert(is_change(less, a, rest[i]));
                let j = choose|j: int| #[trigger] changes_state(less, a, rest[i], j);
                assert(changes_state(before, a, now[i], j));
            } else {
                assert(changes_state(before, a, now[i], before.len() - 1));
            }
        }
    }
}

/// A captured state that is an edit is among the changes.
proof fn change_of(before: Seq<(ObjId, ObjectModel)>, a: ArenaModel, j: int) -> (i: int)
    requires
        0 <= j < before.len(),
        is_edit(before[j].1, a.lookup(before[j].0)),
    ensures
        0 <= i < changes(before, a).len(),
        changes(before, a)[i].id == before[j].0,
    decreases before.len(),
{
    if j < before.len() - 1 {
        change_of(before.drop_last(), a, j)
    } else {
        changes(before, a).len() - 1
    }
}

/// Whether an edit is the addition of object `j`.
spec fn adds_object(
    objects: Seq<ObjectModel>,
    existing: Set<u64>,
    edit: EditModel,
    j: int,
) -> bool {
    &&& 0 <= j < objects.len()
    &&& edit.id == objects[j].id
    &&& edit.before is None
    &&& edit.after == Some(objects[j])
    &&& !existing.contains(id_code(objects[j].id))
}

/// Whether an edit is the addition of some object.
spec fn is_addition(objects: Seq<ObjectModel>, existing: Set<u64>, edit: EditModel) -> bool {
    exists|j: int| #[trigger] adds_object(objects, existing, edit, j)
}

/// Additions are the objects whose names did not exist.
proof fn lemma_additions(objects: Seq<ObjectModel>, existing: Set<u64>)
    ensures
        forall|i: int|
            0 <= i < additions(objects, existing).len() ==> is_addition(
                objects,
                existing,
                #[trigger] additions(objects, existing)[i],
            ),
    decreases objects.len(),
{
    if objects.len() > 0 {
        let less = objects.drop_last();
        lemma_additions(less, existing);
        let rest = additions(less, existing);
        let now = additions(objects, existing);
        assert forall|i: int| 0 <= i < now.len() implies is_addition(
            objects,
            existing,
            #[trigger] now[i],
        ) by {
            if i < rest.len() {
                assert(is_addition(less, existing, rest[i]));
                let j = choose|j: int| #[trigger] adds_object(less, existing, rest[i], j);
                assert(adds_object(objects, existing, now[i], j));
            } else {
                assert(adds_object(objects, existing, now[i], objects.len() - 1));
            }
        }
    }
}

/// An object whose name did not exist is among the additions.
proof fn addition_of(objects: Seq<ObjectModel>, existing: Set<u64>, j: int) -> (i: int)
    requires
        0 <= j < objects.len(),
        !existing.contains(id_code(objects[j].id)),
    ensures
        0 <= i < additions(objects, existing).len(),
        additions(objects, existing)[i].id == objects[j].id,
    decreases objects.len(),
{
    if j < objects.len() - 1 {
        addition_of(objects.drop_last(), existing, j)
    } else {
        additions(objects, existing).len() - 1
    }
}

/// A transaction between two arenas: the edits that a commit at `after` records of a
/// checkpoint at `before` that named `ids`.
pub open spec fn transaction(
    before: ArenaModel,
    ids: Seq<ObjId>,
    after: ArenaModel,
) -> Seq<EditModel> {
    edits_since(
        PendingModel { before: captured(before, ids), existing: codes(before.live()) },
        after,
    )
}

/// Whether arenas can be the ends of a transaction.
pub open spec fn ends_of_transaction(before: ArenaModel, after: ArenaModel) -> bool {
    &&& before.valid()
    &&& before.well_named()
    &&& before.slots.len() <= u32::MAX + 1
    &&& after.valid()
    &&& after.well_named()
    &&& after.slots.len() <= u32::MAX + 1
}

/// What the edits of a transaction are, slot by slot: a change restores what was in the slot
/// before, an addition holds what is in the slot now and was not there before.
proof fn lemma_transaction(before: ArenaModel, ids: Seq<ObjId>, after: ArenaModel)
    requires
        ends_of_transaction(before, after),
    ensures
        well_formed(transaction(before, ids, after)),
        ({
            let edits = transaction(before, ids, after);
            let n = changes(captured(before, ids), after).len();
            &&& n <= edits.len()
            &&& forall|i: int|
                0 <= i < n ==> {
                    &&& (#[trigger] edits[i]).before is Some
                    &&& edits[i].before == content(before, edits[i].id.slot)
                    &&& edits[i].after == after.lookup(edits[i].id)
                    &&& is_edit(edits[i].before->0, edits[i].after)
                }
            &&& forall|i: int|
                n <= i < edits.len() ==> {
                    &&& (#[trigger] edits[i]).before is None
                    &&& edits[i].after is Some
                    &&& edits[i].after == content(after, edits[i].id.slot)
                    &&& before.lookup(edits[i].id) is None
                }
        }),
{
    let caught = captured(before, ids);
    let existing = codes(before.live());
    let first = changes(caught, after);
    let second = additions(after.live(), existing);
    let edits = first + second;
    let n = first.len();
    lemma_captured(before, ids);
    lemma_changes(caught, after);
    lemma_additions(after.live(), existing);
    lemma_live(after, after.slots.len() as int);
    lemma_live(before, before.slots.len() as int);
    assert forall|i: int| 0 <= i < n implies {
        &&& (#[trigger] edits[i]).before is Some
        &&& edits[i].before == content(before, edits[i].id.slot)
        &&& edits[i].after == after.lookup(edits[i].id)
        &&& is_edit(edits[i].before->0, edits[i].after)
        &&& edits[i].before->0.id == edits[i].id
    } by {
        assert(edits[i] == first[i]);
        assert(is_change(caught, after, first[i]));
        let j = choose|j: int| #[trigger] changes_state(caught, after, first[i], j);
        lemma_content(before, caught[j].0);
    }
    assert forall|i: int| n <= i < edits.len() implies {
        &&& (#[trigger] edits[i]).before is None
        &&& edits[i].after is Some
        &&& edits[i].after == content(after, edits[i].id.slot)
        &&& before.lookup(edits[i].id) is None
        &&& edits[i].after->0.id == edits[i].id
    } by {
        assert(edits[i] == second[i - n]);
        assert(is_addition(after.live(), existing, second[i - n]));
        let j = choose|j: int| #[trigger] adds_object(after.live(), existing, second[i - n], j);
        let id = after.live()[j].id;
        if before.lookup(id) is Some {
            lemma_content(before, id);
            assert(content(before, id.slot) is Some);
            let k = choose|k: int|
                0 <= k < live_upto(before.slots, before.slots.len() as int).len()
                    && #[trigger] live_upto(before.slots, before.slots.len() as int)[k] == content(
                    before,
                    id.slot,
                )->0;
            lemma_codes(before.live(), id_code(id));
            assert(id_code(before.live()[k].id) == id_code(id));
        }
    }
    assert forall|i: int| 0 <= i < edits.len() implies ((#[trigger] edits[i]).before matches Some(o)
        ==> o.id == edits[i].id) && (edits[i].after matches Some(o) ==> o.id == edits[i].id) by {
        if i < n {
            assert(edits[i].before is Some);
            lemma_content(after, edits[i].id);
        } else {
            assert(edits[i].before is None);
        }
    }
}

/// An object that is there now and whose name found nothing before is an addition.
proof fn addition_in(before: ArenaModel, ids: Seq<ObjId>, after: ArenaModel, s: u32) -> (i: int)
    requires
        ends_of_transaction(before, after),
        content(after, s) is Some,
        before.lookup(content(after, s)->0.id) is None,
    ensures
        changes(captured(before, ids), after).len() <= i < transaction(before, ids, after).len(),
        transaction(before, ids, after)[i].id == content(after, s)->0.id,
{
    let existing = codes(before.live());
    let o = content(after, s)->0;
    lemma_live(after, after.slots.len() as int);
    lemma_live(before, before.slots.len() as int);
    let k = choose|k: int|
        0 <= k < live_upto(after.slots, after.slots.len() as int).len() && #[trigger] live_upto(
            after.slots,
            after.slots.len() as int,
        )[k] == content(after, s)->0;
    assert(after.live()[k] == o);
    if existing.contains(id_code(o.id)) {
        lemma_codes(before.live(), id_code(o.id));
        let j = choose|j: int|
            0 <= j < before.live().len() && id_code((#[trigger] before.live()[j]).id) == id_code(
                o.id,
            );
        lemma_pair_code(
            before.live()[j].id.slot,
            before.live()[j].id.generation,
            o.id.slot,
            o.id.generation,
        );
        assert(before.live()[j].id == o.id);
        lemma_content(before, o.id);
    }
    let i = addition_of(after.live(), existing, k);
    let n = changes(captured(before, ids), after).len();
    assert(transaction(before, ids, after)[n + i] == additions(after.live(), existing)[i]);
    n + i
}

/// The first edit from `lo` on that names slot `s`, the number of edits if there is none.
proof fn first_touch(edits: Seq<EditModel>, s: u32, lo: int) -> (f: int)
    requires
        0 <= lo <= edits.len(),
    ensures
        lo <= f <= edits.len(),
        f < edits.len() ==> edits[f].id.slot == s,
        forall|i: int| lo <= i < f ==> (#[trigger] edits[i]).id.slot != s,
    decreases edits.len() - lo,
{
    if lo == edits.len() || edits[lo].id.slot == s {
        lo
    } else {
        first_touch(edits, s, lo + 1)
    }
}

/// The last edit below `hi` that names slot `s`, -1 if there is none.
proof fn last_touch(edits: Seq<EditModel>, s: u32, hi: int) -> (l: int)
    requires
        0 <= hi <= edits.len(),
    ensures
        -1 <= l < hi,
        l >= 0 ==> edits[l].id.slot == s,
        forall|i: int| l < i < hi ==> (#[trigger] edits[i]).id.slot != s,
    decreases hi,
{
    if hi == 0 || edits[hi - 1].id.slot == s {
        hi - 1
    } else {
        last_touch(edits, s, hi - 1)
    }
}

/// Taking back additions empties their slot.
proof fn lemma_additions_taken_back(
    state: (ArenaModel, Option<ObjId>, Option<usize>),
    edits: Seq<EditModel>,
    lo: int,
    k: int,
    s: u32,
    id: ObjId,
)
    requires
        state.0.valid(),
        state.0.well_named(),
        well_formed(edits),
        0 <= lo <= k < edits.len(),
        edits[k].id.slot == s,
        content(state.0, s) matches Some(o) ==> o.id == id,
        forall|i: int|
            lo <= i < edits.len() && (#[trigger] edits[i]).id.slot == s ==> edits[i].before is None
                && edits[i].id == id,
    ensures
        content(taken_back(state, edits, lo).0, s) is None,
    decreases edits.len() - lo,
{
    lemma_taken_back_same(state, edits, lo + 1, lo + 1, s);
    lemma_put_content(taken_back(state, edits, lo + 1), edits[lo].id, edits[lo].before, s);
    if lo < k {
        lemma_additions_taken_back(state, edits, lo + 1, k, s, id);
    } else {
        let f = first_touch(edits, s, lo + 1);
        if f < edits.len() {
            lemma_additions_taken_back(state, edits, lo + 1, f, s, id);
        } else {
            lemma_taken_back_same(state, edits, lo + 1, edits.len() as int, s);
        }
    }
}

/// What is in a slot after a transaction was taken back.
proof fn lemma_undone_content(
    before: ArenaModel,
    ids: Seq<ObjId>,
    after: ArenaModel,
    selection: Option<ObjId>,
    face: Option<usize>,
    s: u32,
)
    requires
        ends_of_transaction(before, after),
    ensures
        ({
            let edits = transaction(before, ids, after);
            let n = changes(captured(before, ids), after).len() as int;
            let state = taken_back((after, selection, face), edits, 0);
            &&& state.0.valid()
            &&& state.0.well_named()
            &&& (exists|i: int| 0 <= i < n && (#[trigger] edits[i]).id.slot == s) ==> content(
                state.0,
                s,
            ) == content(before, s)
            &&& (forall|i: int| 0 <= i < n ==> (#[trigger] edits[i]).id.slot != s) && (exists|
                i: int,
            |
                n <= i < edits.len() && (#[trigger] edits[i]).id.slot == s) ==> content(
                state.0,
                s,
            ) is None
            &&& (forall|i: int| 0 <= i < edits.len() ==> (#[trigger] edits[i]).id.slot != s)
                ==> content(state.0, s) == content(after, s)
        }),
{
    let edits = transaction(before, ids, after);
    let n = changes(captured(before, ids), after).len() as int;
    let start = (after, selection, face);
    lemma_transaction(before, ids, after);
    let f = first_touch(edits, s, 0);
    lemma_taken_back_same(start, edits, 0, f, s);
    if f < n {
        lemma_taken_back_same(start, edits, f + 1, f + 1, s);
        assert(edits[f].before is Some);
        lemma_put_content(taken_back(start, edits, f + 1), edits[f].id, edits[f].before, s);
    } else if f < edits.len() {
        let id = edits[f].id;
        assert(edits[f].after == content(after, s));
        assert forall|i: int|
            f <= i < edits.len() && (#[trigger] edits[i]).id.slot == s implies edits[i].before is None
            && edits[i].id == id by {
            assert(edits[i].after == content(after, s));
            assert(edits[i].after matches Some(o) ==> o.id == edits[i].id);
            assert(edits[f].after matches Some(o) ==> o.id == edits[f].id);
        }
        lemma_additions_taken_back(start, edits, f, f, s, id);
    }
}

/// A named object that exists is captured.
proof fn capture_of(a: ArenaModel, ids: Seq<ObjId>, id: ObjId) -> (j: int)
    requires
        ids.contains(id),
        a.lookup(id) is Some,
    ensures
        0 <= j < captured(a, ids).len(),
        captured(a, ids)[j] == (id, a.lookup(id)->0),
    decreases ids.len(),
{
    if ids.last() == id {
        captured(a, ids).len() - 1
    } else {
        let i = ids.index_of(id);
        assert(ids.drop_last()[i] == id);
        capture_of(a, ids.drop_last(), id)
    }
}

/// Undo takes a transaction back. An object that was named at the checkpoint is again as it
/// was then: exactly, if it had gone or changed, and otherwise it stays, written like that all
/// along. An object that was not named and exists still is not touched. A name that found
/// nothing at the checkpoint finds nothing.
pub proof fn undo_takes_a_transaction_back(
    before: ArenaModel,
    ids: Seq<ObjId>,
    after: ArenaModel,
    selection: Option<ObjId>,
    face: Option<usize>,
    id: ObjId,
)
    requires
        ends_of_transaction(before, after),
    ensures
        ({
            let now = taken_back((after, selection, face), transaction(before, ids, after), 0).0;
            &&& before.lookup(id) is None ==> now.lookup(id) is None
            &&& before.lookup(id) is Some && ids.contains(id) ==> now.lookup(id) is Some && alike(
                before.lookup(id)->0,
                now.lookup(id)->0,
            ) && (is_edit(before.lookup(id)->0, after.lookup(id)) ==> now.lookup(id)
                == before.lookup(id)) && (!is_edit(before.lookup(id)->0, after.lookup(id))
                ==> now.lookup(id) == after.lookup(id))
            &&& before.lookup(id) is Some && !ids.contains(id) && after.lookup(id) is Some
                ==> now.lookup(id) == after.lookup(id)
        }),
{
    let edits = transaction(before, ids, after);
    let n = changes(captured(before, ids), after).len() as int;
    let now = taken_back((after, selection, face), edits, 0).0;
    let s = id.slot;
    lemma_transaction(before, ids, after);
    lemma_undone_content(before, ids, after, selection, face, s);
    lemma_content(before, id);
    lemma_content(after, id);
    lemma_content(now, id);
    let f = first_touch(edits, s, 0);
    if f < n {
        assert(content(now, s) == content(before, s));
        if before.lookup(id) is Some {
            alike_to_itself(before.lookup(id)->0);
            if !ids.contains(id) {
                lemma_changes(captured(before, ids), after);
                assert(edits[f] == changes(captured(before, ids), after)[f]);
                assert(is_change(captured(before, ids), after, edits[f]));
                let j = choose|j: int| #[trigger]
                    changes_state(captured(before, ids), after, edits[f], j);
                lemma_captured_named(before, ids, j);
                assert(edits[f].before == content(before, s));
            }
        }
    } else {
        assert forall|i: int| 0 <= i < n implies (#[trigger] edits[i]).id.slot != s by {}
        if before.lookup(id) is Some && ids.contains(id) {
            let j = capture_of(before, ids, id);
            if is_edit(before.lookup(id)->0, after.lookup(id)) {
                let i = change_of(captured(before, ids), after, j);
                assert(edits[i] == changes(captured(before, ids), after)[i]);
            }
        }
        if f < edits.len() {
            assert(content(now, s) is None);
            assert(edits[f].after == content(after, s));
            assert(edits[f].after matches Some(o) ==> o.id == edits[f].id);
        } else {
            assert(content(now, s) == content(after, s));
            if before.lookup(id) is None && after.lookup(id) is Some {
                let i = addition_in(before, ids, after, s);
                assert(edits[i].id.slot == s);
            }
        }
    }
}

/// Captured states are those of named objects.
proof fn lemma_captured_named(a: ArenaModel, ids: Seq<ObjId>, j: int)
    requires
        0 <= j < captured(a, ids).len(),
    ensures
        ids.contains(captured(a, ids)[j].0),
    decreases ids.len(),
{
    if ids.len() > 0 {
        let rest = captured(a, ids.drop_last());
        if j < rest.len() {
            lemma_captured_named(a, ids.drop_last(), j);
            let i = ids.drop_last().index_of(rest[j].0);
            assert(ids[i] == captured(a, ids)[j].0);
        } else {
            assert(ids[ids.len() - 1] == captured(a, ids)[j].0);
        }
    }
}

/// Doing changes of one name again leaves their slot as the last of them says.
proof fn lemma_changes_done_again(
    state: (ArenaModel, Option<ObjId>, Option<usize>),
    edits: Seq<EditModel>,
    hi: int,
    k: int,
    s: u32,
    id: ObjId,
    after: Option<ObjectModel>,
)
    requires
        state.0.valid(),
        state.0.well_named(),
        well_formed(edits),
        0 <= k < hi <= edits.len(),
        edits[k].id.slot == s,
        content(state.0, s) matches Some(o) ==> o.id == id,
        forall|i: int|
            0 <= i < hi && (#[trigger] edits[i]).id.slot == s ==> edits[i].after == after
                && edits[i].id == id,
    ensures
        content(done_again(state, edits, hi).0, s) == after,
    decreases hi,
{
    lemma_done_again_same(state, edits, hi - 1, hi - 1, s);
    lemma_put_content(done_again(state, edits, hi - 1), edits[hi - 1].id, edits[hi - 1].after, s);
    assert(edits[k].after matches Some(o) ==> o.id == edits[k].id);
    if k < hi - 1 {
        lemma_changes_done_again(state, edits, hi - 1, k, s, id, after);
    } else {
        let l = last_touch(edits, s, hi - 1);
        if l >= 0 {
            lemma_changes_done_again(state, edits, hi - 1, l, s, id, after);
        } else {
            lemma_done_again_same(state, edits, 0, hi - 1, s);
        }
    }
}

/// Redo does again what undo took back: every name finds what it found before the undo.
pub proof fn redo_inverts_undo(
    before: ArenaModel,
    ids: Seq<ObjId>,
    after: ArenaModel,
    selection: Option<ObjId>,
    face: Option<usize>,
    id: ObjId,
)
    requires
        ends_of_transaction(before, after),
    ensures
        ({
            let edits = transaction(before, ids, after);
            let undone = taken_back((after, selection, face), edits, 0);
            done_again(undone, edits, edits.len() as int).0.lookup(id) == after.lookup(id)
        }),
{
    let edits = transaction(before, ids, after);
    let n = changes(captured(before, ids), after).len() as int;
    let len = edits.len() as int;
    let undone = taken_back((after, selection, face), edits, 0);
    let now = done_again(undone, edits, len).0;
    let s = id.slot;
    lemma_transaction(before, ids, after);
    lemma_undone_content(before, ids, after, selection, face, s);
    let l = last_touch(edits, s, len);
    lemma_done_again_same(undone, edits, l + 1, len, s);
    if l >= n {
        lemma_done_again_same(undone, edits, l, l, s);
        lemma_put_content(done_again(undone, edits, l), edits[l].id, edits[l].after, s);
        assert(edits[l].after == content(after, s));
    } else if l >= 0 {
        let oid = edits[l].id;
        assert(content(undone.0, s) == content(before, s));
        assert(edits[l].before == content(before, s));
        assert forall|i: int| 0 <= i < l + 1 && (#[trigger] edits[i]).id.slot == s implies edits[i].after
            == edits[l].after && edits[i].id == oid by {
            assert(edits[i].before == content(before, s));
            assert(edits[i].before matches Some(o) ==> o.id == edits[i].id);
            assert(edits[l].before matches Some(o) ==> o.id == edits[l].id);
        }
        assert(edits[l].before matches Some(o) ==> o.id == edits[l].id);
        lemma_changes_done_again(undone, edits, l + 1, l, s, oid, edits[l].after);
        lemma_content(after, oid);
        assert(edits[l].after == after.lookup(oid));
        if content(after, s) is Some && after.lookup(oid) is None {
            lemma_content(before, content(after, s)->0.id);
            let k = content(after, s)->0.id.slot as int;
            assert(after.slots[s as int].object matches Some(o) ==> o.id.slot == s);
            let i = addition_in(before, ids, after, s);
            assert(edits[i].id.slot == s);
        }
    } else {
        assert forall|i: int| 0 <= i < len implies (#[trigger] edits[i]).id.slot != s by {}
    }
    assert(content(now, s) == content(after, s));
    lemma_content(now, id);
    lemma_content(after, id);
}

/// Whether two lists hold objects of the same names in the same order, written alike.
pub open spec fn listed_alike(x: Seq<ObjectModel>, y: Seq<ObjectModel>) -> bool {
    &&& x.len() == y.len()
    &&& forall|k: int|
        0 <= k < x.len() ==> (#[trigger] x[k]).id == y[k].id && alike(x[k], y[k])
}

/// Whether what two slots hold has one name and is written alike.
spec fn matched(x: Option<ObjectModel>, y: Option<ObjectModel>) -> bool {
    match (x, y) {
        (Some(o), Some(p)) => o.id == p.id && alike(o, p),
        (None, None) => true,
        _ => false,
    }
}

proof fn lemma_matched_live(a: ArenaModel, b: ArenaModel, n: int)
    requires
        0 <= n <= a.slots.len(),
        n <= b.slots.len(),
        forall|i: int| 0 <= i < n ==> matched((#[trigger] a.slots[i]).object, b.slots[i].object),
    ensures
        listed_alike(live_upto(a.slots, n), live_upto(b.slots, n)),
    decreases n,
{
    if n > 0 {
        lemma_matched_live(a, b, n - 1);
        assert(matched(a.slots[n - 1].object, b.slots[n - 1].object));
        let x = live_upto(a.slots, n - 1);
        let y = live_upto(b.slots, n - 1);
        assert forall|k: int| 0 <= k < live_upto(a.slots, n).len() implies (#[trigger] live_upto(
            a.slots,
            n,
        )[k]).id == live_upto(b.slots, n)[k].id && alike(
            live_upto(a.slots, n)[k],
            live_upto(b.slots, n)[k],
        ) by {
            if k < x.len() {
                assert(x[k].id == y[k].id && alike(x[k], y[k]));
            }
        }
    }
}

/// Arenas whose slots match hold lists that are alike.
proof fn lemma_matched_arenas(a: ArenaModel, b: ArenaModel)
    requires
        a.slots.len() <= u32::MAX + 1,
        b.slots.len() <= u32::MAX + 1,
        forall|s: u32| matched(#[trigger] content(a, s), content(b, s)),
    ensures
        listed_alike(a.live(), b.live()),
{
    let n = if a.slots.len() < b.slots.len() {
        a.slots.len() as int
    } else {
        b.slots.len() as int
    };
    assert forall|i: int| 0 <= i < n implies matched(
        (#[trigger] a.slots[i]).object,
        b.slots[i].object,
    ) by {
        assert(matched(content(a, i as u32), content(b, i as u32)));
    }
    lemma_matched_live(a, b, n);
    assert forall|i: int| n <= i < a.slots.len() implies (#[trigger] a.slots[i]).object is None by {
        assert(matched(content(a, i as u32), content(b, i as u32)));
    }
    assert forall|i: int| n <= i < b.slots.len() implies (#[trigger] b.slots[i]).object is None by {
        assert(matched(content(a, i as u32), content(b, i as u32)));
    }
    lemma_live_tail(a.slots, n, a.slots.len() as int);
    lemma_live_tail(b.slots, n, b.slots.len() as int);
}

/// Arenas whose slots hold the same objects list the same objects.
proof fn lemma_same_arenas(a: ArenaModel, b: ArenaModel)
    requires
        a.slots.len() <= u32::MAX + 1,
        b.slots.len() <= u32::MAX + 1,
        forall|s: u32| #[trigger] content(a, s) == content(b, s),
    ensures
        a.live() == b.live(),
{
    let n = if a.slots.len() < b.slots.len() {
        a.slots.len() as int
    } else {
        b.slots.len() as int
    };
    assert forall|i: int| 0 <= i < n implies (#[trigger] a.slots[i]).object
        == b.slots[i].object by {
        assert(content(a, i as u32) == content(b, i as u32));
    }
    lemma_same_live(a.slots, b.slots, n);
    assert forall|i: int| n <= i < a.slots.len() implies (#[trigger] a.slots[i]).object is None by {
        assert(content(a, i as u32) == content(b, i as u32));
    }
    assert forall|i: int| n <= i < b.slots.len() implies (#[trigger] b.slots[i]).object is None by {
        assert(content(a, i as u32) == content(b, i as u32));
    }
    lemma_live_tail(a.slots, n, a.slots.len() as int);
    lemma_live_tail(b.slots, n, b.slots.len() as int);
}

proof fn lemma_taken_back_fits(
    state: (ArenaModel, Option<ObjId>, Option<usize>),
    edits: Seq<EditModel>,
    n: int,
)
    requires
        state.0.slots.len() <= u32::MAX + 1,
        0 <= n <= edits.len(),
    ensures
        taken_back(state, edits, n).0.slots.len() <= u32::MAX + 1,
    decreases edits.len() - n,
{
    if n < edits.len() {
        lemma_taken_back_fits(state, edits, n + 1);
    }
}

proof fn lemma_done_again_fits(
    state: (ArenaModel, Option<ObjId>, Option<usize>),
    edits: Seq<EditModel>,
    n: int,
)
    requires
        state.0.valid(),
        state.0.well_named(),
        state.0.slots.len() <= u32::MAX + 1,
        0 <= n <= edits.len(),
    ensures
        done_again(state, edits, n).0.valid(),
        done_again(state, edits, n).0.well_named(),
        done_again(state, edits, n).0.slots.len() <= u32::MAX + 1,
    decreases n,
{
    if n > 0 {
        lemma_done_again_fits(state, edits, n - 1);
        lemma_put_valid(done_again(state, edits, n - 1), edits[n - 1].id, edits[n - 1].after);
    }
}

/// Whether only the named objects differ between the ends of a transaction, apart from new ones.
pub open spec fn only_named_differ(
    before: ArenaModel,
    ids: Seq<ObjId>,
    after: ArenaModel,
) -> bool {
    forall|id: ObjId|
        before.lookup(id) is Some && !ids.contains(id) ==> #[trigger] after.lookup(id)
            == before.lookup(id)
}

/// Whether every object that is written as it was before is the same as before.
pub open spec fn writing_tells_all(before: ArenaModel, after: ArenaModel) -> bool {
    forall|id: ObjId|
        before.lookup(id) is Some && !is_edit(before.lookup(id)->0, after.lookup(id))
            ==> #[trigger] after.lookup(id) == before.lookup(id)
}

/// Undo gives back the list of objects: the same names in the same order, each object written as
/// it was, and where writing tells all, the very same objects.
pub proof fn undo_gives_the_objects_back(
    before: ArenaModel,
    ids: Seq<ObjId>,
    after: ArenaModel,
    selection: Option<ObjId>,
    face: Option<usize>,
)
    requires
        ends_of_transaction(before, after),
        only_named_differ(before, ids, after),
    ensures
        ({
            let now = taken_back((after, selection, face), transaction(before, ids, after), 0).0;
            &&& listed_alike(before.live(), now.live())
            &&& writing_tells_all(before, after) ==> now.live() == before.live()
        }),
{
    let edits = transaction(before, ids, after);
    let now = taken_back((after, selection, face), edits, 0).0;
    lemma_undone_content(before, ids, after, selection, face, 0);
    lemma_taken_back_fits((after, selection, face), edits, 0);
    assert forall|s: u32|
        matched(#[trigger] content(before, s), content(now, s)) && (writing_tells_all(
            before,
            after,
        ) ==> content(now, s) == content(before, s)) by {
        match content(before, s) {
            Some(o) => {
                assert(before.slots[s as int].object == Some(o));
                assert(o.id.slot == s);
                lemma_content(before, o.id);
                lemma_content(now, o.id);
                alike_to_itself(o);
                undo_takes_a_transaction_back(before, ids, after, selection, face, o.id);
                assert(before.lookup(o.id) == Some(o));
                if !ids.contains(o.id) {
                    assert(after.lookup(o.id) == before.lookup(o.id));
                }
            },
            None => {
                if content(now, s) is Some {
                    let o = content(now, s)->0;
                    assert(now.slots[s as int].object == Some(o));
                    assert(o.id.slot == s);
                    lemma_content(before, o.id);
                    lemma_content(now, o.id);
                    undo_takes_a_transaction_back(before, ids, after, selection, face, o.id);
                }
            },
        }
    }
    lemma_matched_arenas(before, now);
    if writing_tells_all(before, after) {
        lemma_same_arenas(now, before);
    }
}

/// Redo after undo gives back the list of objects that there was before the undo.
pub proof fn redo_gives_the_objects_back(
    before: ArenaModel,
    ids: Seq<ObjId>,
    after: ArenaModel,
    selection: Option<ObjId>,
    face: Option<usize>,
)
    requires
        ends_of_transaction(before, after),
    ensures
        ({
            let edits = transaction(before, ids, after);
            let undone = taken_back((after, selection, face), edits, 0);
            done_again(undone, edits, edits.len() as int).0.live() == after.live()
        }),
{
    let edits = transaction(before, ids, after);
    let undone = taken_back((after, selection, face), edits, 0);
    let now = done_again(undone, edits, edits.len() as int).0;
    lemma_undone_content(before, ids, after, selection, face, 0);
    lemma_taken_back_fits((after, selection, face), edits, 0);
    lemma_done_again_fits(undone, edits, edits.len() as int);
    assert forall|s: u32| #[trigger] content(now, s) == content(after, s) by {
        if content(now, s) is Some {
            let o = content(now, s)->0;
            assert(now.slots[s as int].object == Some(o));
            assert(o.id.slot == s);
            lemma_content(now, o.id);
            lemma_content(after, o.id);
            redo_inverts_undo(before, ids, after, selection, face, o.id);
        }
        if content(after, s) is Some {
            let o = content(after, s)->0;
            assert(after.slots[s as int].object == Some(o));
            assert(o.id.slot == s);
            lemma_content(now, o.id);
            lemma_content(after, o.id);
            redo_inverts_undo(before, ids, after, selection, face, o.id);
        }
    }
    lemma_same_arenas(now, after);
}

/// A checkpoint, edits of the objects it names, and a commit that records them: undo gives the
/// objects back that there were at the checkpoint, and redo those that there were at the commit.
pub proof fn undo_and_redo_walk_a_commit(start: DocModel, ids: Seq<ObjId>, edited: DocModel)
    requires
        edited.pending == start.checkpointed(ids).pending,
        ends_of_transaction(start.arena, edited.arena),
        only_named_differ(start.arena, ids, edited.arena),
        transaction(start.arena, ids, edited.arena).len() > 0,
    ensures
        edited.committed().past.len() > 0,
        edited.committed().undone().future.len() > 0,
        listed_alike(start.arena.live(), edited.committed().undone().arena.live()),
        writing_tells_all(start.arena, edited.arena)
            ==> edited.committed().undone().arena.live() == start.arena.live(),
        edited.committed().undone().redone().arena.live() == edited.arena.live(),
{
    let edits = transaction(start.arena, ids, edited.arena);
    assert(edited.committed().past.last() == edits);
    assert(edited.committed().undone().future.last() == edits);
    undo_gives_the_objects_back(
        start.arena,
        ids,
        edited.arena,
        edited.selection,
        edited.selected_face,
    );
    redo_gives_the_objects_back(
        start.arena,
        ids,
        edited.arena,
        edited.selection,
        edited.selected_face,
    );
}

/// Whether a selection stayed with its face, or went with it.
spec fn focus_kept(
    before: (ArenaModel, Option<ObjId>, Option<usize>),
    after: (ArenaModel, Option<ObjId>, Option<usize>),
) -> bool {
    ||| after.1 == before.1 && after.2 == before.2
    ||| after.1 is None && after.2 is None
}

proof fn lemma_taken_back_focus(
    state: (ArenaModel, Option<ObjId>, Option<usize>),
    edits: Seq<EditModel>,
    n: int,
)
    requires
        0 <= n <= edits.len(),
    ensures
        focus_kept(state, taken_back(state, edits, n)),
    decreases edits.len() - n,
{
    if n < edits.len() {
        lemma_taken_back_focus(state, edits, n + 1);
    }
}

proof fn lemma_done_again_focus(
    state: (ArenaModel, Option<ObjId>, Option<usize>),
    edits: Seq<EditModel>,
    n: int,
)
    requires
        0 <= n <= edits.len(),
    ensures
        focus_kept(state, done_again(state, edits, n)),
    decreases n,
{
    if n > 0 {
        lemma_done_again_focus(state, edits, n - 1);
    }
}

/// The selected face goes with the selection: removing an object, undo and redo keep both, or
/// leave neither.
pub proof fn faces_go_with_the_selection(doc: DocModel, id: ObjId)
    ensures
        doc.removed(id).selection != doc.selection ==> doc.removed(id).selected_face is None,
        doc.undone().selection != doc.selection ==> doc.undone().selected_face is None,
        doc.redone().selection != doc.selection ==> doc.redone().selected_face is None,
{
    let state = (doc.arena, doc.selection, doc.selected_face);
    if doc.past.len() > 0 {
        lemma_taken_back_focus(state, doc.past.last(), 0);
    }
    if doc.future.len() > 0 {
        let edits = doc.future.last();
        lemma_done_again_focus(state, edits, edits.len() as int);
    }
}

/// With nothing to undo or redo, nothing changes.
pub proof fn nothing_to_walk_changes_nothing(doc: DocModel)
    ensures
        doc.past.len() == 0 ==> doc.undone() == doc,
        doc.future.len() == 0 ==> doc.redone() == doc,
{
}

/// A commit that finds no edit leaves the history as it is, with everything that could be
/// undone or redone.
pub proof fn empty_commits_leave_the_history(doc: DocModel)
    requires
        doc.pending matches Some(p) ==> edits_since(p, doc.arena).len() == 0,
    ensures
        doc.committed().past == doc.past,
        doc.committed().future == doc.future,
        doc.committed().arena == doc.arena,
{
}

/// A commit that records a transaction leaves nothing to redo, and undoing it right away takes
/// back just that transaction.
pub proof fn commits_fork_the_history(doc: DocModel)
    requires
        doc.pending matches Some(p) && edits_since(p, doc.arena).len() > 0,
    ensures
        doc.committed().future.len() == 0,
        doc.committed().past.last() == edits_since(doc.pending->0, doc.arena),
        doc.committed().undone().arena == taken_back(
            (doc.arena, doc.selection, doc.selected_face),
            edits_since(doc.pending->0, doc.arena),
            0,
        ).0,
{
}

/// The history never holds more than its cap: recording keeps the bound, and so does moving
/// transactions between undo and redo.
pub proof fn history_stays_bounded(doc: DocModel, edits: Seq<EditModel>)
    requires
        doc.past.len() + doc.future.len() <= HISTORY_CAP,
    ensures
        recorded(doc.past, edits).len() <= HISTORY_CAP,
        doc.undone().past.len() + doc.undone().future.len() <= HISTORY_CAP,
        doc.redone().past.len() + doc.redone().future.len() <= HISTORY_CAP,
        doc.committed().past.len() + doc.committed().future.len() <= HISTORY_CAP,
{
}

} // verus!
