//! What is drawn in a frame, and in which order.
//!
//! Every visible object gets a slot of numbers that tell the shaders about it; slot 0 is kept for
//! what is drawn where it stands in the world.
use crate::arena::shown;
use crate::document::{DocModel, Document};
use crate::kinds::ObjectKind;
use crate::number::Real;
use crate::object::{ObjId, Object, ObjectModel};
use vstd::prelude::*;

verus! {

/// A pass of the frame graph.
#[derive(Clone, Copy, Debug, PartialEq, Eq, Structural)]
pub enum Pass {
    ClusterBuild,
    OpaqueZPrepassThenShade,
    Transparent,
    FlatComposite,
    Overlays,
    Post,
}

/// The passes, in order.
pub open spec fn passes_in_order() -> Seq<Pass> {
    seq![
        Pass::ClusterBuild,
        Pass::OpaqueZPrepassThenShade,
        Pass::Transparent,
        Pass::FlatComposite,
        Pass::Overlays,
        Pass::Post,
    ]
}

/// The passes, in order.
pub fn pass_order() -> (r: [Pass; 6])
    ensures
        r@ == passes_in_order(),
{
    let r: [Pass; 6] = [
        Pass::ClusterBuild,
        Pass::OpaqueZPrepassThenShade,
        Pass::Transparent,
        Pass::FlatComposite,
        Pass::Overlays,
        Pass::Post,
    ];
    assert(r@ =~= passes_in_order());
    r
}

/// How a camera sees depth.
#[derive(Clone, Copy, Debug, PartialEq, Eq, Structural)]
pub enum Projection {
    Perspective,
    Orthographic,
}

/// The name of a projection.
pub open spec fn projection_label(p: Projection) -> &'static str {
    match p {
        Projection::Perspective => "perspective",
        Projection::Orthographic => "orthographic",
    }
}

impl Projection {
    /// The other projection.
    pub open spec fn other(self) -> Projection {
        match self {
            Projection::Perspective => Projection::Orthographic,
            Projection::Orthographic => Projection::Perspective,
        }
    }

    /// The other projection.
    pub fn toggle(self) -> (r: Projection)
        ensures
            r == self.other(),
    {
        match self {
            Projection::Perspective => Projection::Orthographic,
            Projection::Orthographic => Projection::Perspective,
        }
    }

    /// The name of the projection.
    pub fn label(self) -> (r: &'static str)
        ensures
            r@ == projection_label(self)@,
    {
        match self {
            Projection::Perspective => "perspective",
            Projection::Orthographic => "orthographic",
        }
    }
}

/// Toggling twice gives the projection back, and once never does.
pub proof fn toggling_twice_restores(p: Projection)
    ensures
        p.other().other() == p,
        p.other() != p,
{
}

/// What became of a frame.
#[derive(Clone, Copy, Debug, PartialEq, Eq, Structural)]
pub enum RenderResult {
    Presented,
    Skipped,
    SurfaceLostOrOutdated,
}

/// What asking a surface for its next picture gives.
#[derive(Clone, Copy, Debug, PartialEq, Eq, Structural)]
pub enum SurfaceOutcome {
    Success,
    Suboptimal,
    Timeout,
    Occluded,
    Validation,
    Outdated,
    Lost,
}

/// What becomes of a frame by what its surface gave: one with a picture is presented, one without
/// is skipped, and where the surface is lost or outdated it has to be made anew.
pub fn frame_outcome(acquired: SurfaceOutcome) -> (r: RenderResult)
    ensures
        r == RenderResult::Presented <==> acquired == SurfaceOutcome::Success || acquired
            == SurfaceOutcome::Suboptimal,
        r == RenderResult::Skipped <==> acquired == SurfaceOutcome::Timeout || acquired
            == SurfaceOutcome::Occluded || acquired == SurfaceOutcome::Validation,
        r == RenderResult::SurfaceLostOrOutdated <==> acquired == SurfaceOutcome::Outdated
            || acquired == SurfaceOutcome::Lost,
{
    match acquired {
        SurfaceOutcome::Success | SurfaceOutcome::Suboptimal => RenderResult::Presented,
        SurfaceOutcome::Timeout | SurfaceOutcome::Occluded | SurfaceOutcome::Validation => {
            RenderResult::Skipped
        },
        SurfaceOutcome::Outdated | SurfaceOutcome::Lost => RenderResult::SurfaceLostOrOutdated,
    }
}

/// The bit pattern of the time a frame may take, eight milliseconds.
pub const FRAME_BUDGET_BITS: u32 = 0x4100_0000;

/// How long frames take.
#[derive(Clone, Copy, Debug, PartialEq, Eq, Structural)]
pub struct FrameBudget {
    pub last_frame_ms: Real,
    pub peak_frame_ms: Real,
    pub frames: u64,
}

impl Default for FrameBudget {
    fn default() -> (r: FrameBudget)
        ensures
            r.last_frame_ms.bits == 0,
            r.peak_frame_ms.bits == 0,
            r.frames == 0,
    {
        FrameBudget { last_frame_ms: Real { bits: 0 }, peak_frame_ms: Real { bits: 0 }, frames: 0 }
    }
}

impl FrameBudget {
    /// Notes how long a frame took, and says whether to report it: it took too long, and at least
    /// a second has passed since the last report.
    pub fn record(&mut self, elapsed_ms: Real, seconds_since_report: u64) -> (report: bool)
        requires
            old(self).frames < u64::MAX,
        ensures
            final(self).last_frame_ms == elapsed_ms,
            final(self).peak_frame_ms == (if old(self).peak_frame_ms.less(elapsed_ms) {
                elapsed_ms
            } else {
                old(self).peak_frame_ms
            }),
            final(self).frames == old(self).frames + 1,
            report == ((Real { bits: FRAME_BUDGET_BITS }).less(elapsed_ms) && seconds_since_report
                >= 1),
    {
        self.last_frame_ms = elapsed_ms;
        if self.peak_frame_ms.lt(elapsed_ms) {
            self.peak_frame_ms = elapsed_ms;
        }
        self.frames = self.frames + 1;
        Real { bits: FRAME_BUDGET_BITS }.lt(elapsed_ms) && seconds_since_report >= 1
    }
}

/// The size of a surface, at least one wide and high.
pub open spec fn surface_size(width: u32, height: u32) -> (u32, u32) {
    (
        if width > 0 {
            width
        } else {
            1
        },
        if height > 0 {
            height
        } else {
            1
        },
    )
}

/// The size that a surface of a size is to be given, none where it has it.
pub fn resize(now: (u32, u32), width: u32, height: u32) -> (r: Option<(u32, u32)>)
    ensures
        r == (if now == surface_size(width, height) {
            None::<(u32, u32)>
        } else {
            Some(surface_size(width, height))
        }),
{
    let w: u32 = if width > 0 {
        width
    } else {
        1
    };
    let h: u32 = if height > 0 {
        height
    } else {
        1
    };
    if now.0 == w && now.1 == h {
        None
    } else {
        Some((w, h))
    }
}

/// How many bytes a slot has.
pub const SLOT_BYTES: u32 = 256;

/// How many slots there are.
pub const OBJECT_SLOTS: u32 = 256;

/// An object to draw: its place among all objects, its name, its kind and its slot.
#[derive(Clone, Copy, Debug, PartialEq, Eq, Structural)]
pub struct Draw {
    pub at: usize,
    pub id: ObjId,
    pub kind: ObjectKind,
    pub slot: u32,
}

/// The first `n` objects as far as they are visible and there is a slot for them. The slot of an
/// object is one past its place.
pub open spec fn packed(objects: Seq<ObjectModel>, slots: u32, n: int) -> Seq<Draw>
    decreases n,
{
    if n <= 0 {
        Seq::empty()
    } else if objects[n - 1].visibility && n < slots {
        packed(objects, slots, n - 1).push(
            Draw {
                at: (n - 1) as usize,
                id: objects[n - 1].id,
                kind: objects[n - 1].kind,
                slot: n as u32,
            },
        )
    } else {
        packed(objects, slots, n - 1)
    }
}

/// Past the last slot nothing more is packed.
proof fn lemma_packed_full(objects: Seq<ObjectModel>, slots: u32, a: int, b: int)
    requires
        0 <= a <= b,
        slots <= a + 1,
    ensures
        packed(objects, slots, b) == packed(objects, slots, a),
    decreases b,
{
    if a < b {
        lemma_packed_full(objects, slots, a, b - 1);
    }
}

/// What is drawn of each packed object: it is one of the objects, visible, and its slot is its own.
proof fn lemma_packed(objects: Seq<ObjectModel>, slots: u32, n: int)
    requires
        0 <= n <= objects.len(),
        objects.len() <= usize::MAX,
    ensures
        packed(objects, slots, n).len() <= n,
        forall|k: int|
            0 <= k < packed(objects, slots, n).len() ==> {
                let d = #[trigger] packed(objects, slots, n)[k];
                &&& d.at < n
                &&& d.id == objects[d.at as int].id
                &&& d.kind == objects[d.at as int].kind
                &&& objects[d.at as int].visibility
                &&& d.slot == d.at + 1
                &&& d.slot < slots
            },
    decreases n,
{
    if n > 0 {
        lemma_packed(objects, slots, n - 1);
    }
}

/// The objects to draw, with their slots.
pub fn pack_draws(objects: &Vec<&Object>, slots: u32) -> (r: Vec<Draw>)
    ensures
        r@ == packed(shown(objects@), slots, objects.len() as int),
{
    let ghost all = shown(objects@);
    let mut out: Vec<Draw> = Vec::new();
    let mut i: usize = 0;
    while i < objects.len()
        invariant
            i <= objects.len(),
            all == shown(objects@),
            out@ == packed(all, slots, i as int),
        decreases objects.len() - i,
    {
        let o: &Object = objects[i];
        assert(o@ == all[i as int]);
        if i as u64 + 1 >= slots as u64 {
            proof {
                lemma_packed_full(all, slots, i as int, objects.len() as int);
            }
            return out;
        }
        if o.visibility {
            out.push(Draw { at: i, id: o.id, kind: o.kind, slot: i as u32 + 1 });
        }
        i = i + 1;
    }
    out
}

/// One thing to draw.
#[derive(Clone, Copy, Debug, PartialEq, Eq, Structural)]
pub enum Step {
    /// A cube or a sphere.
    Primitive { sphere: bool, slot: u32 },
    /// The mesh of the object at a place, with a face shown lit, painted on or not.
    Mesh { at: usize, slot: u32, painted: bool, highlight: Option<usize> },
    /// A plane that shows the painting, or a checker.
    Plane { painting: bool, slot: u32 },
    /// The box around the selected object, which is at a place.
    Outline { at: usize, slot: u32 },
    /// The arrows to move the selected object by.
    Gizmo,
    /// The point that is snapped to.
    Snap,
    /// The bones.
    Skeleton,
    /// The ground.
    Grid,
}

/// What is drawn of a cube or a sphere.
pub open spec fn primitive_step(d: Draw) -> Option<Step> {
    match d.kind {
        ObjectKind::Cube => Some(Step::Primitive { sphere: false, slot: d.slot }),
        ObjectKind::Sphere => Some(Step::Primitive { sphere: true, slot: d.slot }),
        _ => None,
    }
}

/// The face of an object that is shown lit: the selected one of the selected object, where it is
/// shown as it is, without modifiers.
pub open spec fn lit_face(doc: DocModel, o: ObjectModel) -> Option<usize> {
    if doc.selection == Some(o.id) && o.modifiers.len() == 0 {
        doc.selected_face
    } else {
        None
    }
}

/// What is drawn of a mesh that is painted on, or of one that is not.
pub open spec fn mesh_step(doc: DocModel, painted: Seq<ObjId>, want: bool, d: Draw) -> Option<Step> {
    let o = doc.arena.live()[d.at as int];
    if d.kind == ObjectKind::Mesh && o.mesh is Some && painted.contains(d.id) == want {
        Some(Step::Mesh { at: d.at, slot: d.slot, painted: want, highlight: lit_face(doc, o) })
    } else {
        None
    }
}

/// What is drawn of a plane.
pub open spec fn plane_step(d: Draw) -> Option<Step> {
    match d.kind {
        ObjectKind::ImagePlane => Some(Step::Plane { painting: false, slot: d.slot }),
        ObjectKind::PaintCanvas => Some(Step::Plane { painting: true, slot: d.slot }),
        _ => None,
    }
}

/// What `f` draws of the first `n` objects, in order.
pub open spec fn steps_of(draws: Seq<Draw>, f: spec_fn(Draw) -> Option<Step>, n: int) -> Seq<Step>
    decreases n,
{
    if n <= 0 {
        Seq::empty()
    } else {
        match f(draws[n - 1]) {
            Some(s) => steps_of(draws, f, n - 1).push(s),
            None => steps_of(draws, f, n - 1),
        }
    }
}

/// The box around the selected object, where it is drawn.
pub open spec fn outline_steps(draws: Seq<Draw>, selection: Option<ObjId>, n: int) -> Seq<Step>
    decreases n,
{
    if n <= 0 {
        Seq::empty()
    } else {
        let before = outline_steps(draws, selection, n - 1);
        if before.len() == 0 && selection == Some(draws[n - 1].id) {
            seq![Step::Outline { at: draws[n - 1].at, slot: draws[n - 1].slot }]
        } else {
            before
        }
    }
}

/// A step that is drawn or not.
pub open spec fn perhaps(drawn: bool, s: Step) -> Seq<Step> {
    if drawn {
        seq![s]
    } else {
        Seq::empty()
    }
}

/// All that is drawn in a frame: cubes and spheres, meshes, painted meshes, planes, the box around
/// the selected object, the arrows, the snap point, the bones, and the ground last.
pub open spec fn frame_steps(
    doc: DocModel,
    slots: u32,
    painted: Seq<ObjId>,
    gizmo: bool,
    snap: bool,
    bones: bool,
) -> Seq<Step> {
    let draws = packed(doc.arena.live(), slots, doc.arena.live().len() as int);
    let n = draws.len() as int;
    steps_of(draws, |d: Draw| primitive_step(d), n) + steps_of(
        draws,
        |d: Draw| mesh_step(doc, painted, false, d),
        n,
    ) + steps_of(draws, |d: Draw| mesh_step(doc, painted, true, d), n) + steps_of(
        draws,
        |d: Draw| plane_step(d),
        n,
    ) + outline_steps(draws, doc.selection, n) + perhaps(gizmo, Step::Gizmo) + perhaps(
        snap,
        Step::Snap,
    ) + perhaps(bones, Step::Skeleton) + seq![Step::Grid]
}

/// Adds what `f` draws of some objects.
fn add_steps<F: Fn(Draw) -> Option<Step>>(
    out: &mut Vec<Step>,
    draws: &Vec<Draw>,
    f: F,
    Ghost(want): Ghost<spec_fn(Draw) -> Option<Step>>,
)
    requires
        forall|k: int| 0 <= k < draws.len() ==> f.requires((#[trigger] draws@[k],)),
        forall|k: int, s: Option<Step>|
            0 <= k < draws.len() && #[trigger] f.ensures((draws@[k],), s) ==> s == want(draws@[k]),
    ensures
        final(out)@ == old(out)@ + steps_of(draws@, want, draws.len() as int),
{
    let ghost before = out@;
    let mut i: usize = 0;
    assert(out@ =~= before + steps_of(draws@, want, 0));
    while i < draws.len()
        invariant
            i <= draws.len(),
            forall|k: int| 0 <= k < draws.len() ==> f.requires((#[trigger] draws@[k],)),
            forall|k: int, s: Option<Step>|
                0 <= k < draws.len() && #[trigger] f.ensures((draws@[k],), s) ==> s == want(
                    draws@[k],
                ),
            out@ == before + steps_of(draws@, want, i as int),
        decreases draws.len() - i,
    {
        let s: Option<Step> = f(draws[i]);
        if let Some(step) = s {
            out.push(step);
        }
        i = i + 1;
        assert(out@ =~= before + steps_of(draws@, want, i as int));
    }
}

/// Whether a name is in a list.
fn is_listed(list: &Vec<ObjId>, id: ObjId) -> (r: bool)
    ensures
        r == list@.contains(id),
{
    let mut i: usize = 0;
    while i < list.len()
        invariant
            i <= list.len(),
            forall|k: int| 0 <= k < i ==> list@[k] != id,
        decreases list.len() - i,
    {
        if list[i] == id {
            assert(list@[i as int] == id);
            return true;
        }
        i = i + 1;
    }
    false
}

fn mesh_step_of(
    objects: &Vec<&Object>,
    selection: Option<ObjId>,
    face: Option<usize>,
    painted: &Vec<ObjId>,
    want: bool,
    d: Draw,
    Ghost(doc): Ghost<DocModel>,
) -> (r: Option<Step>)
    requires
        shown(objects@) == doc.arena.live(),
        selection == doc.selection,
        face == doc.selected_face,
        d.at < objects.len(),
    ensures
        r == mesh_step(doc, painted@, want, d),
{
    let o: &Object = objects[d.at];
    assert(o@ == doc.arena.live()[d.at as int]);
    if d.kind == ObjectKind::Mesh && o.mesh.is_some() && is_listed(painted, d.id) == want {
        let selected: bool = match selection {
            Some(id) => id == o.id,
            None => false,
        };
        let highlight: Option<usize> = if selected && o.modifiers.len() == 0 {
            face
        } else {
            None
        };
        Some(Step::Mesh { at: d.at, slot: d.slot, painted: want, highlight })
    } else {
        None
    }
}

/// All that is drawn in a frame, in order. `painted` are the objects that are painted on; `gizmo`,
/// `snap` and `bones` are whether the arrows, the snap point and the bones are shown.
pub fn frame_plan(
    doc: &Document,
    slots: u32,
    painted: &Vec<ObjId>,
    gizmo: bool,
    snap: bool,
    bones: bool,
) -> (r: Vec<Step>)
    ensures
        r@ == frame_steps(doc@, slots, painted@, gizmo, snap, bones),
{
    let objects: Vec<&Object> = doc.objects();
    let selection: Option<ObjId> = doc.selection();
    let face: Option<usize> = doc.selected_face();
    let draws: Vec<Draw> = pack_draws(&objects, slots);
    proof {
        lemma_packed(shown(objects@), slots, objects.len() as int);
    }
    let mut out: Vec<Step> = Vec::new();
    let ghost n = draws.len() as int;
    let first = |d: Draw| -> (s: Option<Step>)
        ensures
            s == primitive_step(d),
        {
            match d.kind {
                ObjectKind::Cube => Some(Step::Primitive { sphere: false, slot: d.slot }),
                ObjectKind::Sphere => Some(Step::Primitive { sphere: true, slot: d.slot }),
                _ => None,
            }
        };
    let ghost f1 = |d: Draw| primitive_step(d);
    add_steps(&mut out, &draws, first, Ghost(f1));
    let plain = |d: Draw| -> (s: Option<Step>)
        requires
            shown(objects@) == doc@.arena.live(),
            selection == doc@.selection,
            face == doc@.selected_face,
            d.at < objects.len(),
        ensures
            s == mesh_step(doc@, painted@, false, d),
        { mesh_step_of(&objects, selection, face, painted, false, d, Ghost(doc@)) };
    let ghost f2 = |d: Draw| mesh_step(doc@, painted@, false, d);
    add_steps(&mut out, &draws, plain, Ghost(f2));
    let coated = |d: Draw| -> (s: Option<Step>)
        requires
            shown(objects@) == doc@.arena.live(),
            selection == doc@.selection,
            face == doc@.selected_face,
            d.at < objects.len(),
        ensures
            s == mesh_step(doc@, painted@, true, d),
        { mesh_step_of(&objects, selection, face, painted, true, d, Ghost(doc@)) };
    let ghost f3 = |d: Draw| mesh_step(doc@, painted@, true, d);
    add_steps(&mut out, &draws, coated, Ghost(f3));
    let plane = |d: Draw| -> (s: Option<Step>)
        ensures
            s == plane_step(d),
        {
            match d.kind {
                ObjectKind::ImagePlane => Some(Step::Plane { painting: false, slot: d.slot }),
                ObjectKind::PaintCanvas => Some(Step::Plane { painting: true, slot: d.slot }),
                _ => None,
            }
        };
    let ghost f4 = |d: Draw| plane_step(d);
    add_steps(&mut out, &draws, plane, Ghost(f4));
    let ghost drawn = out@;
    if let Some(step) = outline_of(&draws, selection) {
        out.push(step);
    }
    assert(out@ =~= drawn + outline_steps(draws@, selection, n));
    if gizmo {
        out.push(Step::Gizmo);
    }
    if snap {
        out.push(Step::Snap);
    }
    if bones {
        out.push(Step::Skeleton);
    }
    out.push(Step::Grid);
    assert(out@ =~= frame_steps(doc@, slots, painted@, gizmo, snap, bones));
    out
}

/// The box around the selected object, where it is drawn.
fn outline_of(draws: &Vec<Draw>, selection: Option<ObjId>) -> (r: Option<Step>)
    ensures
        outline_steps(draws@, selection, draws.len() as int) == (match r {
            Some(s) => seq![s],
            None => Seq::empty(),
        }),
{
    let mut found: Option<Step> = None;
    let mut i: usize = 0;
    while i < draws.len()
        invariant
            i <= draws.len(),
            outline_steps(draws@, selection, i as int) == (match found {
                Some(s) => seq![s],
                None => Seq::empty(),
            }),
        decreases draws.len() - i,
    {
        let same: bool = match selection {
            Some(id) => id == draws[i].id,
            None => false,
        };
        if found.is_none() && same {
            found = Some(Step::Outline { at: draws[i].at, slot: draws[i].slot });
        }
        i = i + 1;
    }
    found
}

/// No two objects share a slot, and none has the slot of what stands in the world.
pub proof fn slots_are_own(objects: Seq<ObjectModel>, slots: u32, i: int, j: int)
    requires
        objects.len() <= usize::MAX,
        0 <= i < j < packed(objects, slots, objects.len() as int).len(),
    ensures
        packed(objects, slots, objects.len() as int)[i].slot < packed(
            objects,
            slots,
            objects.len() as int,
        )[j].slot,
        0 < packed(objects, slots, objects.len() as int)[i].slot,
        packed(objects, slots, objects.len() as int)[j].slot < slots,
{
    lemma_packed(objects, slots, objects.len() as int);
    lemma_slots_rise(objects, slots, objects.len() as int);
}

proof fn lemma_slots_rise(objects: Seq<ObjectModel>, slots: u32, n: int)
    requires
        0 <= n <= objects.len(),
        objects.len() <= usize::MAX,
    ensures
        forall|i: int, j: int|
            0 <= i < j < packed(objects, slots, n).len() ==> (#[trigger] packed(
                objects,
                slots,
                n,
            )[i]).slot < (#[trigger] packed(objects, slots, n)[j]).slot,
    decreases n,
{
    if n > 0 {
        lemma_slots_rise(objects, slots, n - 1);
        lemma_packed(objects, slots, n - 1);
    }
}

} // verus!
