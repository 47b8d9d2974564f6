//! Documents: the objects of a scene, the selection, and the history of edits.
//!
//! An edit is wrapped in a checkpoint and a commit. The commit records, for every object that
//! was named at the checkpoint and has changed, and for every object that is new, its state
//! before and after. Undo and redo walk these records.
use crate::arena::{models, shown, ArenaModel, ObjectArena};
use crate::halfedge::{code_of, pair_code};
use crate::kinds::{kind_color, kind_label, AdjustmentKind, BlendMode, Compositing, ObjectKind};
use crate::mesh::{cube_model, Mesh, MeshModel};
use crate::number::{Real, Vec3, ONE_BITS, ZERO_BITS};
use crate::object::{
    alike, object_model, objects_equal, unmoved, Aabb, ObjId, Object, ObjectModel, Trs,
};
use crate::text::{append_decimal, decimal};
use std::collections::HashSet;
use vstd::prelude::*;
use vstd::string::StringExecFns;

verus! {

broadcast use vstd::std_specs::hash::group_hash_axioms;

/// How many transactions the history keeps.
pub const HISTORY_CAP: usize = 128;

struct ObjectEdit {
    id: ObjId,
    before: Option<Object>,
    after: Option<Object>,
}

struct Transaction {
    edits: Vec<ObjectEdit>,
}

struct Pending {
    before: Vec<(ObjId, Object)>,
    existing: HashSet<u64>,
}

/// A scene: its objects, the selection, and the history of edits.
pub struct Document {
    objects: ObjectArena,
    selection: Option<ObjId>,
    selected_face: Option<usize>,
    next_serial: u32,
    past: Vec<Transaction>,
    future: Vec<Transaction>,
    pending: Option<Pending>,
}

/// The states of one object before and after a transaction, none where it did not exist.
pub ghost struct EditModel {
    pub id: ObjId,
    pub before: Option<ObjectModel>,
    pub after: Option<ObjectModel>,
}

/// What a checkpoint noted: the states of the named objects, and the codes of all names.
#[verifier::ext_equal]
pub ghost struct PendingModel {
    pub before: Seq<(ObjId, ObjectModel)>,
    pub existing: Set<u64>,
}

/// What a document holds.
#[verifier::ext_equal]
pub ghost struct DocModel {
    pub arena: ArenaModel,
    pub selection: Option<ObjId>,
    pub selected_face: Option<usize>,
    pub next_serial: u32,
    pub past: Seq<Seq<EditModel>>,
    pub future: Seq<Seq<EditModel>>,
    pub pending: Option<PendingModel>,
}

impl ObjectEdit {
    spec fn model(self) -> EditModel {
        EditModel {
            id: self.id,
            before: object_model(self.before),
            after: object_model(self.after),
        }
    }
}

spec fn edit_models(edits: Seq<ObjectEdit>) -> Seq<EditModel> {
    Seq::new(edits.len(), |i: int| edits[i].model())
}

spec fn history_models(list: Seq<Transaction>) -> Seq<Seq<EditModel>> {
    Seq::new(list.len(), |i: int| edit_models(list[i].edits@))
}

spec fn before_models(list: Seq<(ObjId, Object)>) -> Seq<(ObjId, ObjectModel)> {
    Seq::new(list.len(), |i: int| (list[i].0, list[i].1@))
}

spec fn pending_model(pending: Option<Pending>) -> Option<PendingModel> {
    match pending {
        Some(p) => Some(
            PendingModel { before: before_models(p.before@), existing: p.existing@ },
        ),
        None => None,
    }
}

impl View for Document {
    type V = DocModel;

    closed spec fn view(&self) -> DocModel {
        DocModel {
            arena: self.objects@,
            selection: self.selection,
            selected_face: self.selected_face,
            next_serial: self.next_serial,
            past: history_models(self.past@),
            future: history_models(self.future@),
            pending: pending_model(self.pending),
        }
    }
}

/// The code of a name.
pub open spec fn id_code(id: ObjId) -> u64 {
    pair_code(id.slot, id.generation)
}

/// The states of those of the named objects that exist.
pub open spec fn captured(arena: ArenaModel, ids: Seq<ObjId>) -> Seq<(ObjId, ObjectModel)>
    decreases ids.len(),
{
    if ids.len() == 0 {
        Seq::empty()
    } else {
        let rest = captured(arena, ids.drop_last());
        match arena.lookup(ids.last()) {
            Some(o) => rest.push((ids.last(), o)),
            None => rest,
        }
    }
}

/// The codes of the names that objects carry.
pub open spec fn codes(objects: Seq<ObjectModel>) -> Set<u64>
    decreases objects.len(),
{
    if objects.len() == 0 {
        Set::empty()
    } else {
        codes(objects.drop_last()).insert(id_code(objects.last().id))
    }
}

/// Whether going from one state of an object to another is an edit.
pub open spec fn is_edit(before: ObjectModel, after: Option<ObjectModel>) -> bool {
    match after {
        Some(a) => !alike(before, a),
        None => true,
    }
}

/// The edits of captured objects: those that are gone or are not written alike.
pub open spec fn changes(
    before: Seq<(ObjId, ObjectModel)>,
    arena: ArenaModel,
) -> Seq<EditModel>
    decreases before.len(),
{
    if before.len() == 0 {
        Seq::empty()
    } else {
        let rest = changes(before.drop_last(), arena);
        let (id, state) = before.last();
        if is_edit(state, arena.lookup(id)) {
            rest.push(EditModel { id, before: Some(state), after: arena.lookup(id) })
        } else {
            rest
        }
    }
}

/// The edits of objects whose names did not exist before.
pub open spec fn additions(objects: Seq<ObjectModel>, existing: Set<u64>) -> Seq<EditModel>
    decreases objects.len(),
{
    if objects.len() == 0 {
        Seq::empty()
    } else {
        let rest = additions(objects.drop_last(), existing);
        let o = objects.last();
        if existing.contains(id_code(o.id)) {
            rest
        } else {
            rest.push(EditModel { id: o.id, before: None, after: Some(o) })
        }
    }
}

/// All edits since a checkpoint.
pub open spec fn edits_since(pending: PendingModel, arena: ArenaModel) -> Seq<EditModel> {
    changes(pending.before, arena) + additions(arena.live(), pending.existing)
}

/// The history with one transaction more; the oldest goes where there are too many.
pub open spec fn recorded(past: Seq<Seq<EditModel>>, edits: Seq<EditModel>) -> Seq<Seq<EditModel>> {
    let more = past.push(edits);
    if more.len() > HISTORY_CAP {
        more.remove(0)
    } else {
        more
    }
}

/// Objects, selection and selected face after one object was put into a state. A state of none
/// removes the object; it leaves the selection, and the selected face goes with it.
pub open spec fn put(
    state: (ArenaModel, Option<ObjId>, Option<usize>),
    id: ObjId,
    target: Option<ObjectModel>,
) -> (ArenaModel, Option<ObjId>, Option<usize>) {
    match target {
        Some(o) => (state.0.restored(o), state.1, state.2),
        None => if state.1 == Some(id) {
            (state.0.removed(id), None, None)
        } else {
            (state.0.removed(id), state.1, state.2)
        },
    }
}

/// Objects, selection and selected face after the edits from `n` on were taken back, last first.
pub open spec fn taken_back(
    state: (ArenaModel, Option<ObjId>, Option<usize>),
    edits: Seq<EditModel>,
    n: int,
) -> (ArenaModel, Option<ObjId>, Option<usize>)
    decreases edits.len() - n,
{
    if n >= edits.len() {
        state
    } else {
        put(taken_back(state, edits, n + 1), edits[n].id, edits[n].before)
    }
}

/// Objects, selection and selected face after the first `n` edits were done again.
pub open spec fn done_again(
    state: (ArenaModel, Option<ObjId>, Option<usize>),
    edits: Seq<EditModel>,
    n: int,
) -> (ArenaModel, Option<ObjId>, Option<usize>)
    decreases n,
{
    if n <= 0 {
        state
    } else {
        put(done_again(state, edits, n - 1), edits[n - 1].id, edits[n - 1].after)
    }
}

impl DocModel {
    /// Whether the objects are held in a valid arena.
    pub open spec fn valid(self) -> bool {
        self.arena.valid()
    }

    /// A document without objects.
    pub open spec fn empty() -> DocModel {
        DocModel {
            arena: ArenaModel::empty(),
            selection: None,
            selected_face: None,
            next_serial: 0,
            past: Seq::empty(),
            future: Seq::empty(),
            pending: None,
        }
    }

    /// The document after a checkpoint.
    pub open spec fn checkpointed(self, ids: Seq<ObjId>) -> DocModel {
        DocModel {
            pending: Some(
                PendingModel {
                    before: captured(self.arena, ids),
                    existing: codes(self.arena.live()),
                },
            ),
            ..self
        }
    }

    /// The document without the object of a name. If it was selected, neither an object nor a
    /// face is selected.
    pub open spec fn removed(self, id: ObjId) -> DocModel {
        let selected = self.selection == Some(id);
        DocModel {
            arena: self.arena.removed(id),
            selection: if selected {
                None
            } else {
                self.selection
            },
            selected_face: if selected {
                None
            } else {
                self.selected_face
            },
            ..self
        }
    }

    /// The document after the edit of one object was recorded from the state it had before.
    pub open spec fn noted(self, before: ObjectModel) -> DocModel {
        DocModel {
            past: recorded(
                self.past,
                seq![
                    EditModel {
                        id: before.id,
                        before: Some(before),
                        after: self.arena.lookup(before.id),
                    },
                ],
            ),
            future: Seq::empty(),
            ..self
        }
    }

    /// The document after undo.
    pub open spec fn undone(self) -> DocModel {
        if self.past.len() == 0 {
            self
        } else {
            let edits = self.past.last();
            let (arena, selection, selected_face) = taken_back(
                (self.arena, self.selection, self.selected_face),
                edits,
                0,
            );
            DocModel {
                arena,
                selection,
                selected_face,
                past: self.past.drop_last(),
                future: self.future.push(edits),
                ..self
            }
        }
    }

    /// The document after redo.
    pub open spec fn redone(self) -> DocModel {
        if self.future.len() == 0 {
            self
        } else {
            let edits = self.future.last();
            let (arena, selection, selected_face) = done_again(
                (self.arena, self.selection, self.selected_face),
                edits,
                edits.len() as int,
            );
            DocModel {
                arena,
                selection,
                selected_face,
                past: self.past.push(edits),
                future: self.future.drop_last(),
                ..self
            }
        }
    }

    /// The document after a commit.
    pub open spec fn committed(self) -> DocModel {
        match self.pending {
            None => self,
            Some(pending) => {
                let edits = edits_since(pending, self.arena);
                if edits.len() == 0 {
                    DocModel { pending: None, ..self }
                } else {
                    DocModel {
                        pending: None,
                        past: recorded(self.past, edits),
                        future: Seq::empty(),
                        ..self
                    }
                }
            },
        }
    }

    /// The selected object.
    pub open spec fn selected(self) -> Option<ObjectModel> {
        match self.selection {
            Some(id) => self.arena.lookup(id),
            None => None,
        }
    }

    /// The mesh of the selected object.
    pub open spec fn selected_mesh(self) -> Option<MeshModel> {
        match self.selected() {
            Some(o) => o.mesh,
            None => None,
        }
    }

    /// The document with the selected object put in another state.
    pub open spec fn with_selected(self, object: ObjectModel) -> DocModel {
        DocModel { arena: self.arena.replaced(self.selection->0, object), ..self }
    }
}

pub(crate) proof fn lemma_put_valid(
    state: (ArenaModel, Option<ObjId>, Option<usize>),
    id: ObjId,
    target: Option<ObjectModel>,
)
    requires
        state.0.valid(),
    ensures
        put(state, id, target).0.valid(),
        state.0.well_named() ==> put(state, id, target).0.well_named(),
{
    match target {
        Some(o) => crate::arena::restoring_keeps_other_slots(state.0, o),
        None => crate::arena::removing_keeps_other_names(state.0, id),
    }
}

pub(crate) proof fn lemma_codes(objects: Seq<ObjectModel>, c: u64)
    ensures
        codes(objects).contains(c) == exists|i: int|
            0 <= i < objects.len() && id_code((#[trigger] objects[i]).id) == c,
    decreases objects.len(),
{
    if objects.len() > 0 {
        let rest = objects.drop_last();
        lemma_codes(rest, c);
        if exists|i: int| 0 <= i < rest.len() && id_code((#[trigger] rest[i]).id) == c {
            let i = choose|i: int| 0 <= i < rest.len() && id_code((#[trigger] rest[i]).id) == c;
            assert(objects[i] == rest[i]);
        }
        if exists|i: int| 0 <= i < objects.len() && id_code((#[trigger] objects[i]).id) == c {
            let i = choose|i: int|
                0 <= i < objects.len() && id_code((#[trigger] objects[i]).id) == c;
            if i < rest.len() {
                assert(rest[i] == objects[i]);
            }
        }
        if id_code(objects.last().id) == c {
            assert(objects[objects.len() - 1] == objects.last());
        }
    }
}

impl Document {
    /// Whether the objects are held in a valid arena.
    pub open spec fn valid(&self) -> bool {
        self@.valid()
    }

    /// A document without objects.
    pub fn new() -> (r: Document)
        ensures
            r@ == DocModel::empty(),
            r.valid(),
    {
        let r = Document {
            objects: ObjectArena::new(),
            selection: None,
            selected_face: None,
            next_serial: 0,
            past: Vec::new(),
            future: Vec::new(),
            pending: None,
        };
        assert(r@.past =~= Seq::empty());
        assert(r@.future =~= Seq::empty());
        r
    }

    /// All objects, in the order of their slots.
    pub fn objects(&self) -> (r: Vec<&Object>)
        ensures
            shown(r@) == self@.arena.live(),
    {
        self.objects.objects()
    }

    /// Begin a transaction: note the states of the named objects, which are about to change or
    /// go, and the names of all objects, so that new ones are told apart. Replaces a checkpoint
    /// that was not committed.
    pub fn checkpoint(&mut self, ids: &[ObjId])
        ensures
            final(self)@ == old(self)@.checkpointed(ids@),
    {
        let ghost arena = self@.arena;
        let mut before: Vec<(ObjId, Object)> = Vec::new();
        let mut i: usize = 0;
        assert(ids@.take(0) =~= Seq::empty());
        assert(before_models(before@) =~= Seq::empty());
        while i < ids.len()
            invariant
                i <= ids.len(),
                arena == self@.arena,
                before_models(before@) == captured(arena, ids@.take(i as int)),
            decreases ids.len() - i,
        {
            proof {
                assert(ids@.take(i + 1).drop_last() =~= ids@.take(i as int));
            }
            let id: ObjId = ids[i];
            match self.objects.get(id) {
                Some(o) => {
                    let state = o.copy();
                    let ghost so_far = before@;
                    before.push((id, state));
                    assert(before_models(before@) =~= before_models(so_far).push((id, state@)));
                },
                None => {},
            }
            i = i + 1;
        }
        assert(ids@.take(i as int) =~= ids@);
        let existing = self.name_codes();
        self.pending = Some(Pending { before, existing });
        assert(self@.past =~= old(self)@.past);
    }

    /// The codes of all names.
    fn name_codes(&self) -> (r: HashSet<u64>)
        ensures
            r@ == codes(self@.arena.live()),
    {
        let list = self.objects.objects();
        let ghost live = self@.arena.live();
        let mut set: HashSet<u64> = HashSet::new();
        let mut i: usize = 0;
        assert(live.take(0) =~= Seq::empty());
        while i < list.len()
            invariant
                i <= list.len(),
                shown(list@) == live,
                set@ == codes(live.take(i as int)),
            decreases list.len() - i,
        {
            proof {
                assert(live.take(i + 1).drop_last() =~= live.take(i as int));
                assert(live.take(i + 1).last() == shown(list@)[i as int]);
            }
            let id: ObjId = list[i].id;
            set.insert(code_of(id.slot, id.generation));
            i = i + 1;
        }
        assert(shown(list@).len() == list.len());
        assert(live.take(i as int) =~= live);
        set
    }

    /// Put a transaction on the history; a new edit leaves nothing to redo.
    fn record(&mut self, edits: Vec<ObjectEdit>)
        ensures
            final(self)@ == (DocModel {
                past: recorded(old(self)@.past, edit_models(edits@)),
                future: Seq::empty(),
                ..old(self)@
            }),
    {
        let ghost first = self.past@;
        self.past.push(Transaction { edits });
        assert(history_models(self.past@) =~= history_models(first).push(edit_models(edits@)));
        if self.past.len() > HISTORY_CAP {
            let ghost full = self.past@;
            self.past.remove(0);
            assert(history_models(self.past@) =~= history_models(full).remove(0));
        }
        self.future.clear();
        assert(history_models(self.future@) =~= Seq::empty());
    }

    /// Close the current transaction and put its edits on the history, unless there are none.
    /// True if a transaction was recorded. Without a checkpoint nothing happens.
    pub fn commit(&mut self) -> (r: bool)
        ensures
            final(self)@ == old(self)@.committed(),
            r == (old(self)@.pending matches Some(p) && edits_since(p, old(self)@.arena).len() > 0),
    {
        let ghost start = self@;
        let pending = match self.pending.take() {
            Some(p) => p,
            None => {
                return false;
            },
        };
        let ghost noted = PendingModel {
            before: before_models(pending.before@),
            existing: pending.existing@,
        };
        let ghost arena = self@.arena;
        assert(self@ == DocModel { pending: None, ..start });
        let mut edits: Vec<ObjectEdit> = Vec::new();
        let mut i: usize = 0;
        assert(noted.before.take(0) =~= Seq::empty());
        assert(edit_models(edits@) =~= Seq::empty());
        while i < pending.before.len()
            invariant
                i <= pending.before.len(),
                arena == self@.arena,
                self@ == (DocModel { pending: None, ..start }),
                noted.before == before_models(pending.before@),
                edit_models(edits@) == changes(noted.before.take(i as int), arena),
            decreases pending.before.len() - i,
        {
            proof {
                assert(noted.before.take(i + 1).drop_last() =~= noted.before.take(i as int));
                assert(noted.before.take(i + 1).last() == (
                    pending.before[i as int].0,
                    pending.before[i as int].1@,
                ));
            }
            let id: ObjId = pending.before[i].0;
            let state = &pending.before[i].1;
            let (changed, after): (bool, Option<Object>) = match self.objects.get(id) {
                Some(o) => (!objects_equal(state, o), Some(o.copy())),
                None => (true, None),
            };
            if changed {
                let edit = ObjectEdit { id, before: Some(state.copy()), after };
                let ghost so_far = edits@;
                edits.push(edit);
                assert(edit_models(edits@) =~= edit_models(so_far).push(edit.model()));
            }
            i = i + 1;
        }
        assert(noted.before.take(i as int) =~= noted.before);
        let list = self.objects.objects();
        let ghost live = arena.live();
        let ghost changed = edit_models(edits@);
        let mut added: Vec<ObjectEdit> = Vec::new();
        let mut i: usize = 0;
        assert(live.take(0) =~= Seq::empty());
        assert(edit_models(added@) =~= Seq::empty());
        while i < list.len()
            invariant
                i <= list.len(),
                shown(list@) == live,
                noted.existing == pending.existing@,
                edit_models(added@) == additions(live.take(i as int), noted.existing),
            decreases list.len() - i,
        {
            proof {
                assert(live.take(i + 1).drop_last() =~= live.take(i as int));
                assert(live.take(i + 1).last() == shown(list@)[i as int]);
            }
            let o: &Object = list[i];
            if !pending.existing.contains(&code_of(o.id.slot, o.id.generation)) {
                let edit = ObjectEdit { id: o.id, before: None, after: Some(o.copy()) };
                let ghost so_far = added@;
                added.push(edit);
                assert(edit_models(added@) =~= edit_models(so_far).push(edit.model()));
            }
            i = i + 1;
        }
        assert(shown(list@).len() == list.len());
        assert(live.take(i as int) =~= live);
        let ghost (first, second) = (edits@, added@);
        edits.append(&mut added);
        assert(edit_models(edits@) =~= edit_models(first) + edit_models(second));
        assert(edit_models(edits@) == edits_since(noted, arena));
        assert(start.pending == Some(noted));
        if edits.len() == 0 {
            return false;
        }
        self.record(edits);
        true
    }

    /// Record the edit of one object from the state it had before. True if the object is gone
    /// or has changed.
    pub fn record_object_change(&mut self, before: Object) -> (r: bool)
        ensures
            r == is_edit(before@, old(self)@.arena.lookup(before@.id)),
            r ==> final(self)@ == old(self)@.noted(before@),
            !r ==> final(self)@ == old(self)@,
    {
        let id: ObjId = before.id;
        let (changed, after): (bool, Option<Object>) = match self.objects.get(id) {
            Some(o) => (!objects_equal(&before, o), Some(o.copy())),
            None => (true, None),
        };
        if !changed {
            return false;
        }
        let edit = ObjectEdit { id, before: Some(before), after };
        let mut edits: Vec<ObjectEdit> = Vec::new();
        edits.push(edit);
        assert(edit_models(edits@) =~= seq![edit.model()]);
        self.record(edits);
        true
    }

    /// Put one object into a state.
    fn apply_edit_side(&mut self, id: ObjId, target: &Option<Object>)
        requires
            old(self).valid(),
        ensures
            final(self).valid(),
            ({
                let (arena, selection, selected_face) = put(
                    (old(self)@.arena, old(self)@.selection, old(self)@.selected_face),
                    id,
                    object_model(*target),
                );
                final(self)@ == (DocModel { arena, selection, selected_face, ..old(self)@ })
            }),
    {
        match target {
            Some(o) => {
                self.objects.restore(o.copy());
            },
            None => {
                self.objects.remove(id);
                if self.selection == Some(id) {
                    self.selection = None;
                    self.selected_face = None;
                }
            },
        }
    }

    /// Undo the most recent transaction. False if there is none.
    pub fn undo(&mut self) -> (r: bool)
        requires
            old(self).valid(),
        ensures
            r == (old(self)@.past.len() > 0),
            final(self)@ == old(self)@.undone(),
            final(self).valid(),
    {
        let ghost start = self@;
        let ghost first = self.past@;
        let tx = match self.past.pop() {
            Some(tx) => tx,
            None => {
                return false;
            },
        };
        assert(history_models(self.past@) =~= history_models(first).drop_last());
        let ghost edits = edit_models(tx.edits@);
        assert(start.past.last() == edits);
        let mut n: usize = tx.edits.len();
        while n > 0
            invariant
                n <= tx.edits.len(),
                edits == edit_models(tx.edits@),
                self.valid(),
                ({
                    let (arena, selection, selected_face) = taken_back(
                        (start.arena, start.selection, start.selected_face),
                        edits,
                        n as int,
                    );
                    self@ == (DocModel {
                        arena,
                        selection,
                        selected_face,
                        past: start.past.drop_last(),
                        ..start
                    })
                }),
            decreases n,
        {
            n = n - 1;
            assert(edits[n as int] == tx.edits[n as int].model());
            self.apply_edit_side(tx.edits[n].id, &tx.edits[n].before);
        }
        let ghost waiting = self.future@;
        self.future.push(tx);
        assert(history_models(self.future@) =~= history_models(waiting).push(edits));
        true
    }

    /// Redo the most recently undone transaction. False if there is none.
    pub fn redo(&mut self) -> (r: bool)
        requires
            old(self).valid(),
        ensures
            r == (old(self)@.future.len() > 0),
            final(self)@ == old(self)@.redone(),
            final(self).valid(),
    {
        let ghost start = self@;
        let ghost first = self.future@;
        let tx = match self.future.pop() {
            Some(tx) => tx,
            None => {
                return false;
            },
        };
        assert(history_models(self.future@) =~= history_models(first).drop_last());
        let ghost edits = edit_models(tx.edits@);
        assert(start.future.last() == edits);
        let mut n: usize = 0;
        while n < tx.edits.len()
            invariant
                n <= tx.edits.len(),
                edits == edit_models(tx.edits@),
                self.valid(),
                ({
                    let (arena, selection, selected_face) = done_again(
                        (start.arena, start.selection, start.selected_face),
                        edits,
                        n as int,
                    );
                    self@ == (DocModel {
                        arena,
                        selection,
                        selected_face,
                        future: start.future.drop_last(),
                        ..start
                    })
                }),
            decreases tx.edits.len() - n,
        {
            assert(edits[n as int] == tx.edits[n as int].model());
            self.apply_edit_side(tx.edits[n].id, &tx.edits[n].after);
            n = n + 1;
        }
        let ghost done = self.past@;
        self.past.push(tx);
        assert(history_models(self.past@) =~= history_models(done).push(edits));
        true
    }

    /// Whether there is a transaction to undo.
    pub fn can_undo(&self) -> (r: bool)
        ensures
            r == (self@.past.len() > 0),
    {
        self.past.len() > 0
    }

    /// Whether there is a transaction to redo.
    pub fn can_redo(&self) -> (r: bool)
        ensures
            r == (self@.future.len() > 0),
    {
        self.future.len() > 0
    }

    /// The number of objects.
    pub fn object_count(&self) -> (r: usize)
        ensures
            r == self@.arena.live().len(),
    {
        self.objects.count()
    }

    /// The object of a name.
    pub fn get(&self, id: ObjId) -> (r: Option<&Object>)
        ensures
            match r {
                Some(o) => self@.arena.lookup(id) == Some(o@),
                None => self@.arena.lookup(id) is None,
            },
    {
        self.objects.get(id)
    }
}

/// The name of a new object: what it is, and the number of objects made so far.
pub open spec fn serial_name(label: Seq<char>, serial: u32) -> Seq<char> {
    label + " "@ + decimal(serial as nat)
}

/// A new object at `position`: cubes, spheres and meshes fill the unit cube and the others are
/// flat; a mesh starts as a cube, and an adjustment layer as one that changes nothing.
pub open spec fn fresh(kind: ObjectKind, label: Seq<char>, serial: u32, position: Vec3) -> ObjectModel {
    let solid = kind == ObjectKind::Cube || kind == ObjectKind::Sphere || kind == ObjectKind::Mesh;
    ObjectModel {
        id: ObjId { slot: 0, generation: 0 },
        name: serial_name(label, serial),
        kind,
        transform: Trs { translation: position, ..unmoved() },
        color: kind_color(kind),
        visibility: true,
        lock: false,
        opacity: Real { bits: ONE_BITS },
        compositing: Compositing::DepthOrdered,
        blend_mode: BlendMode::Normal,
        local_aabb: if solid {
            Aabb::unit_box()
        } else {
            Aabb::flat_box()
        },
        mesh: if kind == ObjectKind::Mesh {
            Some(cube_model())
        } else {
            None
        },
        modifiers: Seq::empty(),
        adjustment: if kind == ObjectKind::Adjustment {
            Some(
                AdjustmentKind::BrightnessContrast {
                    brightness: Real { bits: ZERO_BITS },
                    contrast: Real { bits: ZERO_BITS },
                },
            )
        } else {
            None
        },
        skeleton: None,
        skin: None,
    }
}

/// A new mesh object at `position` with the given geometry.
pub open spec fn fresh_mesh(
    label: Seq<char>,
    serial: u32,
    position: Vec3,
    mesh: MeshModel,
) -> ObjectModel {
    ObjectModel { mesh: Some(mesh), ..fresh(ObjectKind::Mesh, label, serial, position) }
}

impl DocModel {
    /// Whether another object can be made: it can be counted and has a slot.
    pub open spec fn has_room(self) -> bool {
        self.next_serial < u32::MAX && self.arena.slots.len() <= u32::MAX
    }

    /// The number of the next object.
    pub open spec fn serial(self) -> u32 {
        (self.next_serial + 1) as u32
    }

    /// The document with one object more.
    pub open spec fn with_new(self, object: ObjectModel) -> DocModel {
        DocModel { arena: self.arena.inserted(object), next_serial: self.serial(), ..self }
    }
}

impl Document {
    /// The object of a name, to be changed.
    pub fn get_mut(&mut self, id: ObjId) -> (r: Option<&mut Object>)
        ensures
            match r {
                Some(o) => old(self)@.arena.lookup(id) == Some(o@) && final(self)@ == (DocModel {
                    arena: old(self)@.arena.replaced(id, final(o)@),
                    ..old(self)@
                }),
                None => old(self)@.arena.lookup(id) is None && final(self)@ == old(self)@,
            },
            old(self).valid() ==> final(self).valid(),
    {
        proof {
            if self@.arena.valid() && self@.arena.lookup(id) is Some {
                assert forall|o: ObjectModel| #[trigger] self@.arena.replaced(id, o).valid() by {
                    crate::arena::replacing_keeps_other_names(self@.arena, id, o);
                }
            }
        }
        self.objects.get_mut(id)
    }

    /// The selected object, to be changed.
    pub(crate) fn selected_mut(&mut self) -> (r: Option<&mut Object>)
        ensures
            match r {
                Some(o) => old(self)@.selected() == Some(o@) && final(self)@ == old(
                    self,
                )@.with_selected(final(o)@),
                None => old(self)@.selected() is None && final(self)@ == old(self)@,
            },
            old(self).valid() ==> final(self).valid(),
    {
        match self.selection {
            Some(id) => self.get_mut(id),
            None => None,
        }
    }

    /// The selected object.
    pub(crate) fn selected_object(&self) -> (r: Option<&Object>)
        ensures
            match r {
                Some(o) => self@.selected() == Some(o@),
                None => self@.selected() is None,
            },
    {
        match self.selection {
            Some(id) => self.get(id),
            None => None,
        }
    }

    /// The name of the selected object.
    pub fn selection(&self) -> (r: Option<ObjId>)
        ensures
            r == self@.selection,
    {
        self.selection
    }

    /// Select an object, or nothing where the name finds nothing. The selected face is kept
    /// only while the selection stays the same.
    pub fn set_selection(&mut self, id: Option<ObjId>)
        ensures
            ({
                let new = match id {
                    Some(i) => if old(self)@.arena.lookup(i) is Some {
                        id
                    } else {
                        None
                    },
                    None => None,
                };
                final(self)@ == (DocModel {
                    selection: new,
                    selected_face: if new == old(self)@.selection {
                        old(self)@.selected_face
                    } else {
                        None
                    },
                    ..old(self)@
                })
            }),
    {
        let new: Option<ObjId> = match id {
            Some(i) => if self.objects.get(i).is_some() {
                Some(i)
            } else {
                None
            },
            None => None,
        };
        if new != self.selection {
            self.selected_face = None;
        }
        self.selection = new;
    }

    /// The selected face of the selected mesh.
    pub fn selected_face(&self) -> (r: Option<usize>)
        ensures
            r == self@.selected_face,
    {
        self.selected_face
    }

    /// Select a face of the selected mesh.
    pub fn set_selected_face(&mut self, face: Option<usize>)
        ensures
            final(self)@ == (DocModel { selected_face: face, ..old(self)@ }),
    {
        self.selected_face = face;
    }

    /// Take in an object that is named by what it is and the number of objects made so far.
    fn insert_fresh(
        &mut self,
        kind: ObjectKind,
        label: &str,
        position: Vec3,
        mesh: Option<Mesh>,
    ) -> (r: ObjId)
        requires
            old(self).valid(),
            old(self)@.has_room(),
        ensures
            final(self).valid(),
            r == old(self)@.arena.next_id(),
            final(self)@ == old(self)@.with_new(
                (ObjectModel {
                    mesh: crate::object::mesh_model(mesh),
                    ..fresh(kind, label@, old(self)@.serial(), position)
                }),
            ),
    {
        let ghost start = self@;
        self.next_serial = self.next_serial + 1;
        let mut name: String = label.to_owned();
        name.append(" ");
        append_decimal(&mut name, self.next_serial as u64);
        let base: Trs = Trs::default();
        let local_aabb: Aabb = match kind {
            ObjectKind::Cube | ObjectKind::Sphere | ObjectKind::Mesh => Aabb::unit(),
            ObjectKind::ImagePlane | ObjectKind::PaintCanvas | ObjectKind::Adjustment => Aabb::flat(),
        };
        let adjustment: Option<AdjustmentKind> = if kind == ObjectKind::Adjustment {
            Some(
                AdjustmentKind::BrightnessContrast {
                    brightness: Real { bits: ZERO_BITS },
                    contrast: Real { bits: ZERO_BITS },
                },
            )
        } else {
            None
        };
        let object = Object {
            id: ObjId { slot: 0, generation: 0 },
            name,
            kind,
            transform: Trs { translation: position, rotation: base.rotation, scale: base.scale },
            color: kind.default_color(),
            visibility: true,
            lock: false,
            opacity: Real { bits: ONE_BITS },
            compositing: Compositing::DepthOrdered,
            blend_mode: BlendMode::Normal,
            local_aabb,
            mesh,
            modifiers: Vec::new(),
            adjustment,
            skeleton: None,
            skin: None,
        };
        proof {
            let want = ObjectModel {
                mesh: crate::object::mesh_model(mesh),
                ..fresh(kind, label@, start.serial(), position)
            };
            assert(object@ =~= want);
        }
        self.objects.insert(object)
    }

    /// Whether another object can be made.
    pub fn can_add(&self) -> (r: bool)
        ensures
            r == self@.has_room(),
    {
        self.next_serial < u32::MAX && self.objects.has_slot()
    }

    /// Make an object of a kind at `position`.
    pub fn add(&mut self, kind: ObjectKind, position: Vec3) -> (r: ObjId)
        requires
            old(self).valid(),
            old(self)@.has_room(),
        ensures
            final(self).valid(),
            r == old(self)@.arena.next_id(),
            final(self)@ == old(self)@.with_new(
                fresh(kind, kind_label(kind)@, old(self)@.serial(), position),
            ),
    {
        let mesh: Option<Mesh> = if kind == ObjectKind::Mesh {
            Some(Mesh::cube())
        } else {
            None
        };
        self.insert_fresh(kind, kind.label(), position, mesh)
    }

    /// Make a mesh object with the given geometry.
    pub(crate) fn add_mesh(&mut self, label: &str, position: Vec3, mesh: Mesh) -> (r: ObjId)
        requires
            old(self).valid(),
            old(self)@.has_room(),
        ensures
            final(self).valid(),
            r == old(self)@.arena.next_id(),
            final(self)@ == old(self)@.with_new(
                fresh_mesh(label@, old(self)@.serial(), position, mesh@),
            ),
    {
        self.insert_fresh(ObjectKind::Mesh, label, position, Some(mesh))
    }

    /// Remove an object. If it is selected, neither an object nor a face is selected afterwards.
    pub fn remove(&mut self, id: ObjId) -> (r: Option<Object>)
        requires
            old(self).valid(),
        ensures
            final(self).valid(),
            object_model(r) == old(self)@.arena.lookup(id),
            final(self)@ == old(self)@.removed(id),
    {
        if self.selection == Some(id) {
            self.selection = None;
            self.selected_face = None;
        }
        self.objects.remove(id)
    }

    /// The document of a scene: objects in the slots of their names, and the selection if it
    /// finds an object.
    pub(crate) fn from_parts(
        objects: &Vec<Object>,
        selection: Option<ObjId>,
        next_serial: u32,
    ) -> (r: Document)
        ensures
            r.valid(),
            ({
                let arena = crate::arena::arena_of(models(objects@), next_serial);
                r@ == (DocModel {
                    arena,
                    selection: match selection {
                        Some(id) => if arena.lookup(id) is Some {
                            selection
                        } else {
                            None
                        },
                        None => None,
                    },
                    next_serial,
                    ..DocModel::empty()
                })
            }),
    {
        let mut doc = Document::new();
        doc.next_serial = next_serial;
        doc.objects = ObjectArena::from_objects(objects, next_serial);
        doc.selection = match selection {
            Some(id) => if doc.objects.get(id).is_some() {
                Some(id)
            } else {
                None
            },
            None => None,
        };
        doc
    }

    /// The number of objects made so far.
    pub(crate) fn serial_count(&self) -> (r: u32)
        ensures
            r == self@.next_serial,
    {
        self.next_serial
    }
}

impl Default for Document {
    /// A document without objects.
    fn default() -> (r: Document)
        ensures
            r@ == DocModel::empty(),
            r.valid(),
    {
        Document::new()
    }
}

} // verus!
