//! What the operations of a document do, told by its objects.
use crate::arena::{
    inserting_keeps_other_names, live_upto, removing_keeps_other_names,
    replacing_keeps_other_names, restoring_keeps_other_slots, ArenaModel,
};
use crate::bevel::{corner_fan, first_side, side_is};
use crate::bevel_laws::following;
use crate::brush::{drawn, flattened, pinched, smoothed, Corner, Sculptor};
use crate::document::{
    fresh, fresh_mesh, recorded, taken_back, DocModel, EditModel,
};
use crate::document_edit::{
    is_corner_bevel, is_edge_bevel, is_focus, is_loop_cut, no_corner_bevel, no_edge_bevel,
    no_loop_cut, posed_object, remeshed,
};
use crate::document_shape::{boolean_op, is_stroke, smooth_factor, BooleanOp};
use crate::halfedge::{first_from, goes_around, polygons, HalfEdge};
use crate::kinds::{
    adjustment_defaults, adjustments_alike, modifiers_alike, AdjustmentKind, BlendMode, Compositing,
    Modifier, ObjectKind,
};
use crate::mesh::{cube_model, MeshModel};
use crate::mesh_edit::{crosses_any, half_edges_of, has_edge, ring_through};
use crate::mesh_fan::is_top;
use crate::modifiers::is_turned;
use crate::number::{Quat, Real, Vec3};
use crate::object::{
    alike, bones_alike, numbers_alike, unmoved, BoneModel, ObjId, ObjectModel,
};
use crate::scene::SceneModel;
use crate::solids::cube_corner;
use crate::stack_laws::settings;
use crate::subdivide_laws::has_side;
use crate::text::decimal;
use vstd::prelude::*;

verus! {

/// Whether all coordinates of a point are finite.
pub open spec fn finite_point(p: Vec3) -> bool {
    p.x.finite() && p.y.finite() && p.z.finite()
}

/// Whether all numbers of a turn are finite.
pub open spec fn finite_turn(q: Quat) -> bool {
    q.x.finite() && q.y.finite() && q.z.finite() && q.w.finite()
}

/// Whether all numbers of a bone are finite.
pub open spec fn finite_bone(b: BoneModel) -> bool {
    finite_point(b.head) && finite_point(b.tail) && finite_turn(b.pose)
}

/// Whether all numbers of an adjustment are finite.
pub open spec fn finite_adjustment(kind: AdjustmentKind) -> bool {
    forall|k: int|
        0 <= k < settings(kind).len()
            ==> (#[trigger] settings(kind)[k]).finite()
}

/// Whether all numbers of an object are finite.
pub open spec fn finite_object(o: ObjectModel) -> bool {
    &&& finite_point(o.transform.translation) && finite_turn(o.transform.rotation) && finite_point(
        o.transform.scale,
    )
    &&& forall|k: int| 0 <= k < o.color.len() ==> (#[trigger] o.color[k]).finite()
    &&& o.opacity.finite()
    &&& finite_point(o.local_aabb.min) && finite_point(o.local_aabb.max)
    &&& o.mesh matches Some(m) ==> forall|v: int|
        0 <= v < m.vertices.len() ==> finite_point(#[trigger] m.vertices[v])
    &&& forall|k: int|
        0 <= k < o.modifiers.len() ==> ((#[trigger] o.modifiers[k]) matches Modifier::Array {
            offset,
            ..
        } ==> finite_point(offset))
    &&& o.adjustment matches Some(a) ==> finite_adjustment(a)
    &&& o.skeleton matches Some(s) ==> forall|b: int|
        0 <= b < s.len() ==> finite_bone(#[trigger] s[b])
    &&& o.skin matches Some(s) ==> forall|v: int, k: int|
        0 <= v < s.weights.len() && 0 <= k < 4 ==> (#[trigger] s.weights[v]@[k]).finite()
}

/// Adjustments that are written alike and have only finite numbers are the same.
proof fn lemma_adjustments_alike(a: AdjustmentKind, b: AdjustmentKind)
    requires
        adjustments_alike(a, b),
        finite_adjustment(a),
    ensures
        a == b,
{
    let s = settings(a);
    assert(forall|k: int| 0 <= k < s.len() ==> (#[trigger] s[k]).finite());
    if s.len() > 0 {
        assert(s[0].finite());
    }
    if s.len() > 1 {
        assert(s[1].finite());
    }
    if s.len() > 2 {
        assert(s[2].finite());
    }
}

/// Two objects whose numbers are finite are written alike only where they are the same, field for
/// field: no edit of such an object goes unnoticed.
pub proof fn no_edit_goes_unnoticed(a: ObjectModel, b: ObjectModel)
    requires
        alike(a, b),
        finite_object(a),
    ensures
        a == b,
{
    assert(a.color =~= b.color) by {
        assert forall|k: int| 0 <= k < a.color.len() implies a.color[k] == b.color[k] by {
            assert(a.color[k].alike(b.color[k]));
        }
    }
    if let (Some(m), Some(n)) = (a.mesh, b.mesh) {
        assert(m.vertices =~= n.vertices) by {
            assert forall|v: int| 0 <= v < m.vertices.len() implies m.vertices[v]
                == n.vertices[v] by {
                assert(m.vertices[v].alike(n.vertices[v]));
                assert(finite_point(m.vertices[v]));
            }
        }
        assert(m == n);
    }
    assert(a.modifiers =~= b.modifiers) by {
        assert forall|k: int| 0 <= k < a.modifiers.len() implies a.modifiers[k]
            == b.modifiers[k] by {
            assert(modifiers_alike(a.modifiers[k], b.modifiers[k]));
        }
    }
    if let (Some(m), Some(n)) = (a.adjustment, b.adjustment) {
        lemma_adjustments_alike(m, n);
    }
    if let (Some(m), Some(n)) = (a.skeleton, b.skeleton) {
        assert(m =~= n) by {
            assert forall|k: int| 0 <= k < m.len() implies m[k] == n[k] by {
                assert(bones_alike(m[k], n[k]));
                assert(finite_bone(m[k]));
            }
        }
    }
    if let (Some(m), Some(n)) = (a.skin, b.skin) {
        assert(m.indices =~= n.indices) by {
            assert forall|v: int| 0 <= v < m.indices.len() implies m.indices[v]
                == n.indices[v] by {
                assert(m.indices[v]@ == n.indices[v]@);
                assert(m.indices[v] =~= n.indices[v]);
            }
        }
        assert(m.weights =~= n.weights) by {
            assert forall|v: int| 0 <= v < m.weights.len() implies m.weights[v]
                == n.weights[v] by {
                assert(numbers_alike(m.weights[v]@, n.weights[v]@));
                assert forall|k: int| 0 <= k < 4 implies m.weights[v]@[k] == n.weights[v]@[k] by {
                    assert(m.weights[v]@[k].alike(n.weights[v]@[k]));
                    assert(m.weights[v]@[k].finite());
                }
                assert(m.weights[v]@ =~= n.weights[v]@);
                assert(m.weights[v] =~= n.weights[v]);
            }
        }
        assert(m == n);
    }
    assert(a =~= b);
}

/// A number of a box in all three coordinates.
pub open spec fn all_three(bits: u32) -> Vec3 {
    Vec3 { x: Real { bits }, y: Real { bits }, z: Real { bits } }
}

/// A new object is seen, can be edited, hides all that is behind it and is in no way changed: it
/// stands at its place, not turned and of its own size. It is named by its kind and its number.
/// Solid ones are a unit wide, high and deep, the others a unit wide and high and twenty-five times
/// flatter. A mesh begins as the cube, and an adjustment as one that changes nothing.
pub proof fn new_objects_are_plain(
    kind: ObjectKind,
    label: Seq<char>,
    serial: u32,
    position: Vec3,
)
    ensures
        ({
            let o = fresh(kind, label, serial, position);
            &&& o.kind == kind
            &&& o.name.subrange(0, label.len() as int) == label
            &&& o.name[label.len() as int] == ' '
            &&& o.name.skip(label.len() as int + 1) == decimal(serial as nat)
            &&& o.transform.translation == position
            &&& o.transform.scale == all_three(0x3f80_0000)
            &&& !is_turned(o.transform.rotation)
            &&& o.visibility && !o.lock
            &&& o.opacity.bits == 0x3f80_0000
            &&& o.blend_mode == BlendMode::Normal && o.compositing == Compositing::DepthOrdered
            &&& o.modifiers.len() == 0 && o.skeleton is None && o.skin is None
            &&& o.color.len() == 4 && o.color[3].bits == 0x3f80_0000
            &&& o.local_aabb.min.x.bits == 0xbf00_0000 && o.local_aabb.max.x.bits == 0x3f00_0000
            &&& o.local_aabb.min.y.bits == 0xbf00_0000 && o.local_aabb.max.y.bits == 0x3f00_0000
            &&& o.local_aabb.min.z == o.local_aabb.max.z.opposite()
            &&& o.local_aabb.max.z.bits == (match kind {
                ObjectKind::Cube => 0x3f00_0000u32,
                ObjectKind::Sphere => 0x3f00_0000u32,
                ObjectKind::Mesh => 0x3f00_0000u32,
                ObjectKind::ImagePlane => 0x3ca3_d70au32,
                ObjectKind::PaintCanvas => 0x3ca3_d70au32,
                ObjectKind::Adjustment => 0x3ca3_d70au32,
            })
            &&& o.mesh == (if kind == ObjectKind::Mesh { Some(cube_model()) } else { None })
            &&& o.adjustment is Some == (kind == ObjectKind::Adjustment)
            &&& o.adjustment matches Some(a) ==> a == adjustment_defaults()[0]
        }),
{
    reveal_strlit(" ");
    let o = fresh(kind, label, serial, position);
    assert(o.name.subrange(0, label.len() as int) =~= label);
    assert(o.name.skip(label.len() as int + 1) =~= decimal(serial as nat));
}

/// Making an object of given geometry makes a mesh object that differs from a new mesh in nothing
/// else.
pub proof fn new_meshes_have_their_geometry(
    label: Seq<char>,
    serial: u32,
    position: Vec3,
    mesh: MeshModel,
)
    ensures
        ({
            let o = fresh_mesh(label, serial, position, mesh);
            let plain = fresh(ObjectKind::Mesh, label, serial, position);
            &&& o.mesh == Some(mesh)
            &&& o.kind == ObjectKind::Mesh
            &&& o == (ObjectModel { mesh: o.mesh, ..plain })
        }),
{
}

/// A new object is found under the next name, carries it, and is numbered one further than the one
/// before. Every other name finds what it found, and the selection, its face and the history stay.
pub proof fn new_objects_join_the_others(doc: DocModel, object: ObjectModel, id: ObjId)
    requires
        doc.valid(),
        doc.has_room(),
    ensures
        ({
            let after = doc.with_new(object);
            let own = doc.arena.next_id();
            &&& doc.arena.lookup(own) is None
            &&& after.arena.lookup(own) == Some(ObjectModel { id: own, ..object })
            &&& id != own ==> after.arena.lookup(id) == doc.arena.lookup(id)
            &&& after.next_serial == doc.next_serial + 1
            &&& doc.serial() == after.next_serial
            &&& after.selection == doc.selection && after.selected_face == doc.selected_face
            &&& after.past == doc.past && after.future == doc.future && after.pending == doc.pending
        }),
{
    inserting_keeps_other_names(doc.arena, object);
}

/// The objects in the first slots that hold one are listed, and no others, in the order of the
/// slots.
proof fn lemma_live_is_found(a: ArenaModel, n: int, k: int)
    requires
        0 <= n <= a.slots.len(),
        0 <= k < live_upto(a.slots, n).len(),
    ensures
        exists|s: int| 0 <= s < n && (#[trigger] a.slots[s]).object == Some(live_upto(a.slots, n)[k]),
    decreases n,
{
    if a.slots[n - 1].object is Some && k == live_upto(a.slots, n).len() - 1 {
        assert(a.slots[n - 1].object == Some(live_upto(a.slots, n)[k]));
    } else {
        lemma_live_is_found(a, n - 1, k);
    }
}

proof fn lemma_found_is_live(a: ArenaModel, n: int, s: int)
    requires
        0 <= s < n <= a.slots.len(),
        a.slots[s].object is Some,
    ensures
        live_upto(a.slots, n).contains(a.slots[s].object->0),
    decreases n,
{
    if s < n - 1 {
        lemma_found_is_live(a, n - 1, s);
        let before = live_upto(a.slots, n - 1);
        let k = choose|k: int| 0 <= k < before.len() && before[k] == a.slots[s].object->0;
        assert(live_upto(a.slots, n)[k] == a.slots[s].object->0);
    } else {
        let all = live_upto(a.slots, n);
        assert(all[all.len() - 1] == a.slots[s].object->0);
    }
}

/// The list of a document's objects holds exactly those that a name finds, each under its own name.
pub proof fn lists_hold_what_names_find(a: ArenaModel, id: ObjId)
    requires
        a.valid(),
        a.well_named(),
    ensures
        a.lookup(id) matches Some(o) ==> o.id == id && a.live().contains(o),
        forall|k: int|
            0 <= k < a.live().len() ==> a.lookup((#[trigger] a.live()[k]).id) == Some(a.live()[k]),
{
    if let Some(o) = a.lookup(id) {
        lemma_found_is_live(a, a.slots.len() as int, id.slot as int);
    }
    assert forall|k: int| 0 <= k < a.live().len() implies a.lookup((#[trigger] a.live()[k]).id)
        == Some(a.live()[k]) by {
        lemma_live_is_found(a, a.slots.len() as int, k);
    }
}

/// Removing an object takes it and nothing else. It leaves the selection, and its face with it;
/// another selection stays with its face.
pub proof fn removing_takes_one_object(doc: DocModel, id: ObjId, other: ObjId)
    requires
        doc.valid(),
    ensures
        doc.removed(id).arena.lookup(id) is None,
        other != id ==> doc.removed(id).arena.lookup(other) == doc.arena.lookup(other),
        doc.selection == Some(id) ==> doc.removed(id).selection is None && doc.removed(
            id,
        ).selected_face is None,
        doc.selection != Some(id) ==> doc.removed(id).selection == doc.selection && doc.removed(
            id,
        ).selected_face == doc.selected_face,
        doc.removed(id).past == doc.past && doc.removed(id).future == doc.future,
        doc.removed(id).next_serial == doc.next_serial,
{
    removing_keeps_other_names(doc.arena, id);
}

/// Combining the selected object with another gives it the result, where it lies, and takes the
/// other away. The selected object keeps its name, kind and looks; no further object changes; and
/// no face is selected any more.
pub proof fn combining_takes_the_other_object(
    doc: DocModel,
    tool: ObjId,
    mesh: MeshModel,
    id: ObjId,
)
    requires
        doc.valid(),
        doc.combines_with(tool),
    ensures
        ({
            let after = doc.combined(tool, mesh);
            let own = doc.selection->0;
            let o = doc.arena.lookup(own)->0;
            &&& after.arena.lookup(tool) is None
            &&& after.arena.lookup(own) is Some
            &&& after.arena.lookup(own)->0.mesh == Some(mesh)
            &&& after.arena.lookup(own)->0.transform.translation == all_three(0)
            &&& after.arena.lookup(own)->0.transform.scale == all_three(0x3f80_0000)
            &&& !is_turned(after.arena.lookup(own)->0.transform.rotation)
            &&& after.arena.lookup(own)->0 == (ObjectModel {
                mesh: after.arena.lookup(own)->0.mesh,
                transform: after.arena.lookup(own)->0.transform,
                ..o
            })
            &&& id != own && id != tool ==> after.arena.lookup(id) == doc.arena.lookup(id)
            &&& after.selection == doc.selection && after.selected_face is None
            &&& after.past == doc.past && after.future == doc.future
        }),
{
    removing_keeps_other_names(doc.arena, tool);
    let gone = doc.arena.removed(tool);
    let own = doc.selection->0;
    replacing_keeps_other_names(
        gone,
        own,
        ObjectModel {
            mesh: Some(mesh),
            transform: unmoved(),
            ..doc.selected()->0
        },
    );
}

/// Whether there is an object, of the mesh kind and with a mesh.
pub open spec fn is_shaped(o: Option<ObjectModel>) -> bool {
    o is Some && o->0.kind == ObjectKind::Mesh && o->0.mesh is Some
}

/// Two objects can be combined exactly when they are two, both found, and both meshes with
/// geometry.
pub proof fn two_meshes_can_be_combined(doc: DocModel, tool: ObjId)
    ensures
        doc.combines_with(tool) ==> doc.selection is Some && doc.selection->0 != tool && is_shaped(
            doc.arena.lookup(doc.selection->0),
        ) && is_shaped(doc.arena.lookup(tool)),
        doc.selection is Some && doc.selection->0 != tool && is_shaped(
            doc.arena.lookup(doc.selection->0),
        ) && is_shaped(doc.arena.lookup(tool)) ==> doc.combines_with(tool),
        boolean_op(1) == BooleanOp::Subtract,
        boolean_op(2) == BooleanOp::Intersect,
        forall|n: u8| n != 1 && n != 2 ==> #[trigger] boolean_op(n) == BooleanOp::Union,
{
}

/// Posing one bone turns it as asked and leaves the other bones, and all else of the object, as
/// they were.
pub proof fn posing_turns_one_bone(object: ObjectModel, bone: int, pose: Quat, other: int)
    requires
        object.skeleton is Some,
        0 <= bone < object.skeleton->0.len(),
        0 <= other < object.skeleton->0.len(),
    ensures
        ({
            let after = posed_object(object, bone, pose);
            &&& after.skeleton is Some
            &&& after.skeleton->0.len() == object.skeleton->0.len()
            &&& after.skeleton->0[bone].pose == pose
            &&& after.skeleton->0[bone].head == object.skeleton->0[bone].head
            &&& after.skeleton->0[bone].tail == object.skeleton->0[bone].tail
            &&& after.skeleton->0[bone].parent == object.skeleton->0[bone].parent
            &&& after.skeleton->0[bone].name == object.skeleton->0[bone].name
            &&& other != bone ==> after.skeleton->0[other] == object.skeleton->0[other]
            &&& after == (ObjectModel { skeleton: after.skeleton, ..object })
        }),
{
}

/// Exchanging the mesh of the selected object changes nothing else of it, and no other object.
pub proof fn edits_change_the_selected_mesh(doc: DocModel, mesh: MeshModel, id: ObjId)
    requires
        doc.valid(),
        doc.selected() is Some,
    ensures
        ({
            let after = doc.with_mesh(mesh);
            &&& after.selected_mesh() == Some(mesh)
            &&& after.selected() == Some(ObjectModel { mesh: Some(mesh), ..doc.selected()->0 })
            &&& doc.selection != Some(id) ==> after.arena.lookup(id) == doc.arena.lookup(id)
            &&& after.selection == doc.selection && after.selected_face == doc.selected_face
            &&& after.past == doc.past && after.future == doc.future
        }),
{
    replacing_keeps_other_names(
        doc.arena,
        doc.selection->0,
        ObjectModel { mesh: Some(mesh), ..doc.selected()->0 },
    );
}

/// The history keeps its order. Recording puts a transaction last; as long as there are no more
/// than a hundred and twenty-eight, all that were there stay before it, and past that the first of
/// them goes and the others move up.
pub proof fn histories_forget_the_oldest(past: Seq<Seq<EditModel>>, edits: Seq<EditModel>, k: int)
    requires
        past.len() <= 128,
    ensures
        recorded(past, edits).last() == edits,
        past.len() < 128 ==> recorded(past, edits).len() == past.len() + 1,
        past.len() == 128 ==> recorded(past, edits).len() == 128,
        0 <= k < past.len() < 128 ==> recorded(past, edits)[k] == past[k],
        past.len() == 128 && 1 <= k < 128 ==> recorded(past, edits)[k - 1] == past[k],
{
}

/// Undo and redo walk the history step by step: undo moves the last transaction of the past to the
/// end of the future, and redo moves the last of the future to the end of the past.
pub proof fn histories_are_walked_step_by_step(doc: DocModel)
    ensures
        doc.past.len() > 0 ==> doc.undone().past == doc.past.subrange(0, doc.past.len() - 1)
            && doc.undone().future.last() == doc.past.last() && doc.undone().future.len()
            == doc.future.len() + 1,
        doc.future.len() > 0 ==> doc.redone().future == doc.future.subrange(
            0,
            doc.future.len() - 1,
        ) && doc.redone().past.last() == doc.future.last() && doc.redone().past.len()
            == doc.past.len() + 1,
        doc.past.len() > 0 ==> doc.undone().redone().past == doc.past
            && doc.undone().redone().future == doc.future,
        doc.undone().next_serial == doc.next_serial && doc.redone().next_serial == doc.next_serial,
{
    if doc.past.len() > 0 {
        assert(doc.undone().redone().past =~= doc.past);
        assert(doc.undone().redone().future =~= doc.future);
    }
}

/// Recording the change of one object from an earlier state lets undo put it back into just that
/// state, and leaves nothing to redo.
pub proof fn noted_changes_can_be_undone(doc: DocModel, before: ObjectModel, other: ObjId)
    requires
        doc.valid(),
    ensures
        doc.noted(before).future.len() == 0,
        doc.noted(before).arena == doc.arena,
        doc.noted(before).undone().arena.lookup(before.id) == Some(before),
        other.slot != before.id.slot ==> doc.noted(before).undone().arena.lookup(other)
            == doc.arena.lookup(other),
        doc.noted(before).undone().selection == doc.selection,
        doc.noted(before).undone().selected_face == doc.selected_face,
{
    restoring_keeps_other_slots(doc.arena, before);
    let noted = doc.noted(before);
    assert(noted.past.last().len() == 1);
    reveal_with_fuel(taken_back, 3);
}

/// An edit of a face works on the selected one, where the mesh has it.
pub proof fn edits_work_on_the_selected_face<N: Fn(Vec<Vec3>) -> Vec3>(
    mesh: MeshModel,
    preferred: Option<usize>,
    normal: N,
    f: Option<usize>,
)
    requires
        is_focus(mesh, preferred, normal, f),
    ensures
        preferred is Some && preferred->0 < mesh.faces.len() ==> f == preferred,
        preferred is None || preferred->0 >= mesh.faces.len() ==> is_top(mesh, normal, f),
{
}

/// After a cut or a bevel the face that points most upward is selected, and the selected object
/// has the new mesh.
pub proof fn cuts_select_the_top_face<N: Fn(Vec<Vec3>) -> Vec3>(
    before: DocModel,
    after: DocModel,
    mesh: MeshModel,
    normal: N,
)
    requires
        before.valid(),
        before.selected() is Some,
        remeshed(before, after, mesh, normal),
    ensures
        is_top(mesh, normal, after.selected_face),
        after.selected_mesh() == Some(mesh),
        after.selection == before.selection,
{
    edits_change_the_selected_mesh(before, mesh, before.selection->0);
}

/// A loop cut goes through the first side of the face, a bevel of an edge works on that side too,
/// and a bevel of a corner on the corner where it begins.
pub proof fn edits_begin_at_the_first_side<
    M: Fn(Vec3, Vec3) -> Vec3,
    P: Fn(Vec3, Vec3, Real) -> Vec3,
>(before: MeshModel, after: MeshModel, f: usize, midpoint: M, pull: P)
    ensures
        is_loop_cut(before, after, f, midpoint) ==> exists|ring: Seq<(u32, u32)>| #[trigger]
            ring_through(
                polygons(before.faces),
                before.faces[f as int][0],
                following(before.faces[f as int], 0),
                ring,
            ),
        is_edge_bevel(before, after, f, pull) ==> exists|k: int, j: int| #[trigger]
            first_side(
                polygons(before.faces),
                k,
                j,
                before.faces[f as int][0],
                following(before.faces[f as int], 0),
            ),
        is_corner_bevel(before, after, f, pull) ==> exists|hes: Seq<HalfEdge>, fan: Seq<u32>|
            #[trigger] corner_fan(
                polygons(before.faces),
                before.faces[f as int][0],
                hes,
                fan,
            ),
{
    let face = before.faces[f as int];
    if face.len() >= 2 {
        assert(following(face, 0) == face[1]);
    }
}

/// The strength of smoothing lies from nothing to all, and is what was asked for where that does.
/// What is no number smooths all.
pub proof fn smoothing_goes_at_most_all_the_way(strength: Real)
    ensures
        ({
            let zero = Real { bits: 0 };
            let one = Real { bits: 0x3f80_0000 };
            let s = smooth_factor(strength);
            &&& !s.nan() && !s.less(zero) && !one.less(s)
            &&& zero.less(strength) && !one.less(strength) ==> s == strength
            &&& strength.less(zero) ==> s == zero
            &&& one.less(strength) || strength.nan() ==> s == one
        }),
{
}

/// Whether some face of a mesh has a side from one vertex to another.
pub open spec fn walked(faces: Seq<Seq<u32>>, a: u32, b: u32) -> bool {
    exists|g: int, j: int| #[trigger]
        has_side(faces, g, j) && faces[g][j] == a && following(faces[g], j) == b
}

/// Whether a face of a mesh is face `g` of the drawn cube, begun `s` corners further on.
pub open spec fn is_cube_face(mesh: MeshModel, f: int, g: int, s: int) -> bool {
    forall|k: int|
        0 <= k < 4 ==> mesh.vertices[#[trigger] mesh.faces[f][k] as int] == cube_corner(
            g,
            (k + s) % 4,
        )
}

/// The cube that a mesh begins as is closed: each side of a face is walked back by another. Its
/// faces are those of the drawn cube, which look outward, each in some place and wound alike.
pub proof fn cubes_are_closed(f: int, k: int)
    requires
        0 <= f < 6,
        0 <= k < 4,
    ensures
        cube_model().vertices.len() == 8,
        cube_model().faces.len() == 6,
        cube_model().faces[f].len() == 4,
        walked(
            cube_model().faces,
            following(cube_model().faces[f], k),
            cube_model().faces[f][k],
        ),
        exists|g: int, s: int|
            0 <= g < 6 && 0 <= s < 4 && #[trigger] is_cube_face(cube_model(), f, g, s),
{
    let faces = cube_model().faces;
    let across: Seq<Seq<int>> = seq![
        seq![5, 3, 4, 2],
        seq![5, 2, 4, 3],
        seq![5, 0, 4, 1],
        seq![5, 1, 4, 0],
        seq![2, 0, 3, 1],
        seq![1, 3, 0, 2],
    ];
    let at: Seq<Seq<int>> = seq![
        seq![2, 3, 1, 1],
        seq![0, 3, 3, 1],
        seq![3, 3, 0, 1],
        seq![1, 3, 2, 1],
        seq![2, 2, 2, 2],
        seq![0, 0, 0, 0],
    ];
    assert(has_side(faces, across[f][k], at[f][k]));
    assert(faces[across[f][k]][at[f][k]] == following(faces[f], k));
    assert(following(faces[across[f][k]], at[f][k]) == faces[f][k]);
    let g: int = if f == 0 {
        4
    } else if f == 1 {
        5
    } else if f == 2 {
        1
    } else if f == 3 {
        0
    } else if f == 4 {
        2
    } else {
        3
    };
    let s: int = if f == 4 { 3 } else { 0 };
    assert(is_cube_face(cube_model(), f, g, s));
}

/// A cut or a bevel is refused only where it cannot be done. A loop cut can where the first side of
/// the face is one of the mesh and the ring through it crosses a quad; a bevel of an edge where
/// polygons walk it both ways; and a bevel of a corner where three edges or more go around it.
pub proof fn cuts_are_refused_only_where_they_fail(mesh: MeshModel, f: usize)
    ensures
        ({
            let face = mesh.faces[f as int];
            let polys = polygons(mesh.faces);
            &&& face.len() >= 2 && has_edge(polys, face[0], face[1]) && (forall|
                ring: Seq<(u32, u32)>,
            | #[trigger]
                ring_through(polys, face[0], face[1], ring) ==> crosses_any(mesh.faces, ring))
                ==> !no_loop_cut(mesh, f)
            &&& face.len() >= 2 && (exists|k: int, j: int| #[trigger]
                side_is(polys, k, j, face[0], face[1])) && (exists|k: int, j: int| #[trigger]
                side_is(polys, k, j, face[1], face[0])) ==> !no_edge_bevel(mesh, f)
            &&& face.len() >= 1 && (exists|hes: Seq<HalfEdge>, fan: Seq<u32>|
                half_edges_of(hes, polys) && fan.len() >= 3 && first_from(hes, face[0], fan[0])
                    && #[trigger] goes_around(hes, fan[0], fan)) ==> !no_corner_bevel(mesh, f)
        }),
{
    let face = mesh.faces[f as int];
    let polys = polygons(mesh.faces);
    if exists|hes: Seq<HalfEdge>, fan: Seq<u32>|
        half_edges_of(hes, polys) && fan.len() >= 3 && first_from(hes, face[0], fan[0])
            && #[trigger] goes_around(hes, fan[0], fan) {
        let (hes, fan) = choose|hes: Seq<HalfEdge>, fan: Seq<u32>|
            half_edges_of(hes, polys) && fan.len() >= 3 && first_from(hes, face[0], fan[0])
                && #[trigger] goes_around(hes, fan[0], fan);
        assert(corner_fan(polys, face[0], hes, fan));
    }
}

/// The four sculpting strokes go by number: 0 draws, 1 smooths, 2 flattens, 3 pinches, and any other
/// number leaves the mesh as it was.
pub proof fn strokes_go_by_number<
    W,
    A: Fn(W, Vec3) -> Vec3,
    H: Fn(Vec3, Vec3, Real) -> Option<Real>,
    N: Fn(Vec<Vec3>) -> Vec3,
    S: Fn(Vec<Corner>) -> Vec3,
    D: Fn(Vec3, Vec3, Real, Real) -> Vec3,
    E: Fn(Vec3, Vec<Vec3>, Real, Real) -> Vec3,
    T: Fn(Vec3, Vec3, Real) -> bool,
    L: Fn(Vec<Vec3>) -> Option<Vec3>,
    P: Fn(Vec3, Vec3, Vec3, Real, Real) -> Vec3,
    I: Fn(Vec3, Vec3, Real, Real) -> Vec3,
>(
    before: MeshModel,
    after: MeshModel,
    moved: bool,
    center: Vec3,
    radius: Real,
    strength: Real,
    op: u8,
    world: W,
    by: &Sculptor<A, H, N, S, D, E, T, L, P, I>,
)
    requires
        is_stroke(before, after, moved, center, radius, strength, op, world, by),
    ensures
        op == 0 ==> drawn(before, after, moved, center, radius, strength, world, by),
        op == 1 ==> smoothed(
            before,
            after,
            moved,
            center,
            radius,
            smooth_factor(strength),
            world,
            by,
        ),
        op == 2 ==> flattened(before, after, moved, center, radius, strength, world, by),
        op == 3 ==> pinched(before, after, moved, center, radius, strength, world, by),
        op > 3 ==> !moved && after == before,
{
}

/// A selection is kept over saving and loading exactly where its object is among those loaded.
pub proof fn loaded_selections_are_found(scene: SceneModel)
    ensures
        scene.loaded().selection is Some <==> (scene.selection is Some
            && scene.loaded().arena.lookup(scene.selection->0) is Some),
        scene.loaded().selection is Some ==> scene.loaded().selection == scene.selection,
        scene.loaded().selected_face is None,
        scene.loaded().past.len() == 0 && scene.loaded().future.len() == 0
            && scene.loaded().pending is None,
        scene.loaded().next_serial == scene.next_serial,
{
}

} // verus!
