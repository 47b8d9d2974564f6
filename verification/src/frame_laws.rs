//! What a frame shows, told by the objects of a document.
use crate::document::DocModel;
use crate::frame::{
    frame_steps, mesh_step, outline_steps, packed, perhaps, plane_step, primitive_step, steps_of,
    surface_size, Draw, Step,
};
use crate::kinds::ObjectKind;
use crate::object::{ObjId, ObjectModel};
use vstd::prelude::*;

verus! {

/// The draw of object `i`.
pub open spec fn draw_of(objects: Seq<ObjectModel>, i: int) -> Draw {
    Draw {
        at: i as usize,
        id: objects[i].id,
        kind: objects[i].kind,
        slot: (i + 1) as u32,
    }
}

/// Whether object `i` is drawn: it is visible, and there is a slot for it.
pub open spec fn is_drawn(objects: Seq<ObjectModel>, slots: u32, i: int) -> bool {
    0 <= i < objects.len() && objects[i].visibility && i + 1 < slots
}

/// Exactly the visible objects for which there is a slot are drawn, each once and in their order.
pub proof fn visible_objects_are_drawn(objects: Seq<ObjectModel>, slots: u32, n: int)
    requires
        0 <= n <= objects.len() <= usize::MAX,
    ensures
        ({
            let all = packed(objects, slots, n);
            &&& forall|i: int|
                0 <= i < n && #[trigger] is_drawn(objects, slots, i) ==> all.contains(
                    draw_of(objects, i),
                )
            &&& forall|k: int|
                0 <= k < all.len() ==> is_drawn(objects, slots, (#[trigger] all[k]).at as int)
                    && all[k].at < n && all[k] == draw_of(objects, all[k].at as int)
            &&& forall|k: int, l: int|
                0 <= k < l < all.len() ==> (#[trigger] all[k]).at < (#[trigger] all[l]).at
        }),
    decreases n,
{
    if n > 0 {
        visible_objects_are_drawn(objects, slots, n - 1);
        let less = packed(objects, slots, n - 1);
        let all = packed(objects, slots, n);
        assert forall|i: int| 0 <= i < n && #[trigger] is_drawn(objects, slots, i) implies all.contains(
            draw_of(objects, i),
        ) by {
            if i < n - 1 {
                assert(less.contains(draw_of(objects, i)));
                let k = less.index_of(draw_of(objects, i));
                assert(all[k] == draw_of(objects, i));
            } else {
                assert(all[all.len() - 1] == draw_of(objects, i));
            }
        }
        assert forall|k: int| 0 <= k < all.len() implies is_drawn(
            objects,
            slots,
            (#[trigger] all[k]).at as int,
        ) && all[k].at < n && all[k] == draw_of(objects, all[k].at as int) by {
            if k < less.len() {
                assert(less[k] == all[k]);
            }
        }
        assert forall|k: int, l: int| 0 <= k < l < all.len() implies (#[trigger] all[k]).at < (
        #[trigger] all[l]).at by {
            assert(less[k] == all[k]);
            if l < less.len() {
                assert(less[l] == all[l]);
            }
        }
    }
}

proof fn lemma_steps(draws: Seq<Draw>, f: spec_fn(Draw) -> Option<Step>, n: int, s: Step)
    requires
        0 <= n <= draws.len(),
    ensures
        steps_of(draws, f, n).contains(s) <==> exists|k: int|
            0 <= k < n && f(#[trigger] draws[k]) == Some(s),
    decreases n,
{
    if n > 0 {
        lemma_steps(draws, f, n - 1, s);
        let less = steps_of(draws, f, n - 1);
        let all = steps_of(draws, f, n);
        if less.contains(s) {
            let i = less.index_of(s);
            assert(all[i] == s);
            let k = choose|k: int| 0 <= k < n - 1 && f(#[trigger] draws[k]) == Some(s);
            assert(f(draws[k]) == Some(s));
        }
        if f(draws[n - 1]) == Some(s) {
            assert(all[all.len() - 1] == s);
        }
        if all.contains(s) {
            let i = all.index_of(s);
            if i < less.len() {
                assert(less[i] == s);
            } else {
                assert(f(draws[n - 1]) == Some(s));
            }
        }
        if exists|k: int| 0 <= k < n && f(#[trigger] draws[k]) == Some(s) {
            let k = choose|k: int| 0 <= k < n && f(#[trigger] draws[k]) == Some(s);
            if k < n - 1 {
                assert(less.contains(s));
            }
        }
    }
}

proof fn lemma_outline(draws: Seq<Draw>, selection: Option<ObjId>, n: int, s: Step)
    requires
        0 <= n <= draws.len(),
    ensures
        outline_steps(draws, selection, n).len() <= 1,
        outline_steps(draws, selection, n).contains(s) ==> s is Outline,
    decreases n,
{
    if n > 0 {
        lemma_outline(draws, selection, n - 1, s);
    }
}

proof fn lemma_parts<A>(a: Seq<A>, b: Seq<A>, s: A)
    ensures
        (a + b).contains(s) <==> a.contains(s) || b.contains(s),
{
    if a.contains(s) {
        let i = a.index_of(s);
        assert((a + b)[i] == s);
    }
    if b.contains(s) {
        let i = b.index_of(s);
        assert((a + b)[a.len() + i] == s);
    }
    if (a + b).contains(s) {
        let i = (a + b).index_of(s);
        if i < a.len() {
            assert(a[i] == s);
        } else {
            assert(b[i - a.len()] == s);
        }
    }
}

/// Whether a step shows object `i` as what it is: a cube or a sphere, a plane or a painting, or a
/// mesh, painted on or not, of which the selected face is lit where the object is the selected one
/// and is shown without modifiers.
pub open spec fn shows(doc: DocModel, painted: Seq<ObjId>, i: int, s: Step) -> bool {
    let o = doc.arena.live()[i];
    let slot = (i + 1) as u32;
    match o.kind {
        ObjectKind::Cube => s == (Step::Primitive { sphere: false, slot }),
        ObjectKind::Sphere => s == (Step::Primitive { sphere: true, slot }),
        ObjectKind::ImagePlane => s == (Step::Plane { painting: false, slot }),
        ObjectKind::PaintCanvas => s == (Step::Plane { painting: true, slot }),
        ObjectKind::Mesh => o.mesh is Some && s == (Step::Mesh {
            at: i as usize,
            slot,
            painted: painted.contains(o.id),
            highlight: if doc.selection == Some(o.id) && o.modifiers.len() == 0 {
                doc.selected_face
            } else {
                None
            },
        }),
        _ => false,
    }
}

/// A frame shows every object that is drawn as what it is, and what it shows of objects is of those
/// that are drawn. The arrows, the snap point and the bones are shown where they are asked for, and
/// the ground comes last.
pub proof fn frames_show_the_visible_objects(
    doc: DocModel,
    slots: u32,
    painted: Seq<ObjId>,
    gizmo: bool,
    snap: bool,
    bones: bool,
    i: int,
    s: Step,
)
    requires
        doc.arena.live().len() <= usize::MAX,
    ensures
        ({
            let all = frame_steps(doc, slots, painted, gizmo, snap, bones);
            let objects = doc.arena.live();
            &&& is_drawn(objects, slots, i) && shows(doc, painted, i, s) ==> all.contains(s)
            &&& all.contains(s) && (s is Primitive || s is Plane || s is Mesh) ==> exists|k: int|
                #[trigger] is_drawn(objects, slots, k) && shows(doc, painted, k, s)
            &&& all.contains(Step::Gizmo) == gizmo
            &&& all.contains(Step::Snap) == snap
            &&& all.contains(Step::Skeleton) == bones
            &&& all.len() > 0 && all[all.len() - 1] == Step::Grid
        }),
{
    let objects = doc.arena.live();
    let draws = packed(objects, slots, objects.len() as int);
    let n = draws.len() as int;
    visible_objects_are_drawn(objects, slots, objects.len() as int);
    lemma_frame(doc, slots, painted, gizmo, snap, bones, s);
    lemma_frame(doc, slots, painted, gizmo, snap, bones, Step::Gizmo);
    lemma_frame(doc, slots, painted, gizmo, snap, bones, Step::Snap);
    lemma_frame(doc, slots, painted, gizmo, snap, bones, Step::Skeleton);
    let all = frame_steps(doc, slots, painted, gizmo, snap, bones);
    if is_drawn(objects, slots, i) && shows(doc, painted, i, s) {
        let d = draw_of(objects, i);
        assert(draws.contains(d));
        let k = draws.index_of(d);
        assert(draws[k] == d);
        assert(drawn_as(doc, painted, draws[k], s));
    }
    if all.contains(s) && (s is Primitive || s is Plane || s is Mesh) {
        let k = choose|k: int| 0 <= k < n && drawn_as(doc, painted, #[trigger] draws[k], s);
        let d = draws[k];
        assert(is_drawn(objects, slots, d.at as int));
        assert(d == draw_of(objects, d.at as int));
        assert(shows(doc, painted, d.at as int, s));
    }
}

/// Whether one of the parts of a frame draws an object as a step.
spec fn drawn_as(doc: DocModel, painted: Seq<ObjId>, d: Draw, s: Step) -> bool {
    ||| primitive_step(d) == Some(s)
    ||| mesh_step(doc, painted, false, d) == Some(s)
    ||| mesh_step(doc, painted, true, d) == Some(s)
    ||| plane_step(d) == Some(s)
}

proof fn lemma_frame(
    doc: DocModel,
    slots: u32,
    painted: Seq<ObjId>,
    gizmo: bool,
    snap: bool,
    bones: bool,
    s: Step,
)
    requires
        doc.arena.live().len() <= usize::MAX,
    ensures
        ({
            let objects = doc.arena.live();
            let draws = packed(objects, slots, objects.len() as int);
            let all = frame_steps(doc, slots, painted, gizmo, snap, bones);
            &&& (exists|k: int|
                0 <= k < draws.len() && drawn_as(doc, painted, #[trigger] draws[k], s))
                ==> all.contains(s)
            &&& all.contains(s) && (s is Primitive || s is Plane || s is Mesh) ==> exists|k: int|
                0 <= k < draws.len() && drawn_as(doc, painted, #[trigger] draws[k], s)
            &&& s == Step::Gizmo ==> all.contains(s) == gizmo
            &&& s == Step::Snap ==> all.contains(s) == snap
            &&& s == Step::Skeleton ==> all.contains(s) == bones
        }),
{
    let objects = doc.arena.live();
    let draws = packed(objects, slots, objects.len() as int);
    let n = draws.len() as int;
    let fa = |d: Draw| primitive_step(d);
    let fb = |d: Draw| mesh_step(doc, painted, false, d);
    let fc = |d: Draw| mesh_step(doc, painted, true, d);
    let fd = |d: Draw| plane_step(d);
    let a = steps_of(draws, fa, n);
    let b = steps_of(draws, fb, n);
    let c = steps_of(draws, fc, n);
    let e = steps_of(draws, fd, n);
    let o = outline_steps(draws, doc.selection, n);
    let g = perhaps(gizmo, Step::Gizmo);
    let p = perhaps(snap, Step::Snap);
    let k = perhaps(bones, Step::Skeleton);
    let last = seq![Step::Grid];
    lemma_steps(draws, fa, n, s);
    lemma_steps(draws, fb, n, s);
    lemma_steps(draws, fc, n, s);
    lemma_steps(draws, fd, n, s);
    lemma_outline(draws, doc.selection, n, s);
    lemma_parts(a, b, s);
    lemma_parts(a + b, c, s);
    lemma_parts(a + b + c, e, s);
    lemma_parts(a + b + c + e, o, s);
    lemma_parts(a + b + c + e + o, g, s);
    lemma_parts(a + b + c + e + o + g, p, s);
    lemma_parts(a + b + c + e + o + g + p, k, s);
    lemma_parts(a + b + c + e + o + g + p + k, last, s);
    assert(frame_steps(doc, slots, painted, gizmo, snap, bones) == a + b + c + e + o + g + p + k
        + last);
    if gizmo {
        assert(g[0] == Step::Gizmo);
    }
    if snap {
        assert(p[0] == Step::Snap);
    }
    if bones {
        assert(k[0] == Step::Skeleton);
    }
    if exists|j: int| 0 <= j < n && drawn_as(doc, painted, #[trigger] draws[j], s) {
        let j = choose|j: int| 0 <= j < n && drawn_as(doc, painted, #[trigger] draws[j], s);
        assert(fa(draws[j]) == Some(s) || fb(draws[j]) == Some(s) || fc(draws[j]) == Some(s) || fd(
            draws[j],
        ) == Some(s));
    }
    if a.contains(s) {
        let j = choose|j: int| 0 <= j < n && fa(#[trigger] draws[j]) == Some(s);
        assert(drawn_as(doc, painted, draws[j], s));
    }
    if b.contains(s) {
        let j = choose|j: int| 0 <= j < n && fb(#[trigger] draws[j]) == Some(s);
        assert(drawn_as(doc, painted, draws[j], s));
    }
    if c.contains(s) {
        let j = choose|j: int| 0 <= j < n && fc(#[trigger] draws[j]) == Some(s);
        assert(drawn_as(doc, painted, draws[j], s));
    }
    if e.contains(s) {
        let j = choose|j: int| 0 <= j < n && fd(#[trigger] draws[j]) == Some(s);
        assert(drawn_as(doc, painted, draws[j], s));
    }
}

/// The box around the selected object is shown exactly where that object is drawn, at its own slot.
pub proof fn the_selected_object_is_outlined(draws: Seq<Draw>, id: ObjId, n: int, k: int)
    requires
        0 <= k < n <= draws.len(),
        draws[k].id == id,
        forall|i: int| 0 <= i < k ==> (#[trigger] draws[i]).id != id,
    ensures
        outline_steps(draws, Some(id), n) == seq![
            Step::Outline { at: draws[k].at, slot: draws[k].slot },
        ],
        outline_steps(draws, None, n).len() == 0,
    decreases n,
{
    lemma_no_outline(draws, n);
    if k == n - 1 {
        lemma_not_outlined(draws, id, n - 1);
    } else {
        the_selected_object_is_outlined(draws, id, n - 1, k);
    }
}

proof fn lemma_not_outlined(draws: Seq<Draw>, id: ObjId, n: int)
    requires
        0 <= n <= draws.len(),
        forall|i: int| 0 <= i < n ==> (#[trigger] draws[i]).id != id,
    ensures
        outline_steps(draws, Some(id), n).len() == 0,
    decreases n,
{
    if n > 0 {
        assert(draws[n - 1].id != id);
        lemma_not_outlined(draws, id, n - 1);
    }
}

proof fn lemma_no_outline(draws: Seq<Draw>, n: int)
    requires
        0 <= n <= draws.len(),
    ensures
        outline_steps(draws, None, n).len() == 0,
    decreases n,
{
    if n > 0 {
        lemma_no_outline(draws, n - 1);
    }
}

/// A surface is as wide and as high as it is asked to be, but never less than one.
pub proof fn surfaces_are_never_empty(width: u32, height: u32)
    ensures
        surface_size(width, height).0 >= 1 && surface_size(width, height).1 >= 1,
        width >= 1 ==> surface_size(width, height).0 == width,
        height >= 1 ==> surface_size(width, height).1 == height,
{
}

} // verus!
