//! Edits of the selected object.
use crate::bevel::{
    corner_closed, corner_cut, corner_fan, edge_beveled, first_side, last_side, side_is, spokes,
};
use crate::document::{DocModel, Document};
use crate::halfedge::{polygons, side_count, HalfEdge};
use crate::kinds::{AdjustmentKind, BlendMode, ObjectKind};
use crate::mesh::{face_below, Mesh, MeshModel};
use crate::mesh_edit::{
    bevel_fraction, crosses_any, cut_along, has_edge, inset_fraction, ring_through, stitched_about,
};
use crate::mesh_fan::{is_picked, is_top};
use crate::mesh_laws::{corner_bevel_keeps_range, edge_bevel_keeps_range, loop_cut_keeps_range};
use crate::number::{Quat, Real, Vec3, ONE_BITS, ZERO_BITS};
use crate::object::{BoneModel, ObjId, ObjectModel, Trs};
use crate::picking::TriangleHit;
use vstd::prelude::*;

verus! {

/// The bit pattern of one quarter, the bevel of a selected edge or corner.
pub const QUARTER_BITS: u32 = 0x3e80_0000;

/// Whether a face is preferred, and the mesh has it.
pub open spec fn has_face(mesh: MeshModel, preferred: Option<usize>) -> bool {
    preferred matches Some(p) && p < mesh.faces.len()
}

/// Whether face `f` names vertices of the mesh, and can be duplicated.
pub open spec fn face_extends(mesh: MeshModel, f: int) -> bool {
    face_below(mesh.faces[f], mesh.vertices.len()) && mesh.vertices.len() + mesh.faces[f].len()
        <= u32::MAX
}

/// Whether `f` is the face that an edit of the mesh works on: the preferred face if the mesh
/// has it, else the one that points most upward.
pub open spec fn is_focus<N: Fn(Vec<Vec3>) -> Vec3>(
    mesh: MeshModel,
    preferred: Option<usize>,
    normal: N,
    f: Option<usize>,
) -> bool {
    match preferred {
        Some(p) => if p < mesh.faces.len() {
            f == preferred
        } else {
            is_top(mesh, normal, f)
        },
        None => is_top(mesh, normal, f),
    }
}

/// The face that an edit of a mesh works on.
fn focus_of<N: Fn(Vec<Vec3>) -> Vec3>(mesh: &Mesh, preferred: Option<usize>, normal: &N) -> (r:
    Option<usize>)
    requires
        has_face(mesh@, preferred) || mesh@.in_range(),
        forall|points: Vec<Vec3>| normal.requires((points,)),
    ensures
        is_focus(mesh@, preferred, *normal, r),
        r matches Some(f) ==> f < mesh@.faces.len(),
        r is None ==> mesh@.faces.len() == 0,
{
    match preferred {
        Some(p) => {
            if p < mesh.faces.len() {
                return Some(p);
            }
        },
        None => {},
    }
    mesh.top_face_index(normal)
}

impl DocModel {
    /// The document with another mesh in the selected object.
    pub open spec fn with_mesh(self, mesh: MeshModel) -> DocModel {
        self.with_selected(ObjectModel { mesh: Some(mesh), ..self.selected()->0 })
    }

    /// Whether the selected object is of the mesh kind and has a mesh.
    pub open spec fn selects_mesh_kind(self) -> bool {
        self.selected() is Some && self.selected()->0.kind == ObjectKind::Mesh
            && self.selected()->0.mesh is Some
    }

    /// Whether the face of the selected mesh that an edit works on names vertices of the mesh, and
    /// can be duplicated. Where no face is selected it may be any one.
    pub open spec fn selected_mesh_extends(self) -> bool {
        self.selected_mesh() matches Some(m) ==> if has_face(m, self.selected_face) {
            face_extends(m, self.selected_face->0 as int)
        } else {
            forall|f: int| 0 <= f < m.faces.len() ==> #[trigger] face_extends(m, f)
        }
    }

    /// Whether the selected mesh names its own vertices, and each side can gain a vertex.
    pub open spec fn selected_mesh_cuts(self) -> bool {
        self.selected_mesh() matches Some(m) ==> m.in_range() && m.vertices.len() + side_count(
            polygons(m.faces),
        ) + 4 <= u32::MAX
    }
}

proof fn lemma_extends(doc: DocModel)
    requires
        doc.selected_mesh() is Some,
        doc.selected_mesh_extends(),
    ensures
        has_face(doc.selected_mesh()->0, doc.selected_face) || doc.selected_mesh()->0.in_range(),
{
    let m = doc.selected_mesh()->0;
    if !has_face(m, doc.selected_face) {
        assert forall|f: int| 0 <= f < m.faces.len() implies face_below(
            #[trigger] m.faces[f],
            m.vertices.len(),
        ) by {
            assert(face_extends(m, f));
        }
    }
}

/// Whether a document after an edit of the selected face is the one that is meant: the face
/// in focus was stitched, and stays selected.
pub open spec fn face_stitched<
    N: Fn(Vec<Vec3>) -> Vec3,
    G: Fn(Vec<Vec3>) -> Vec3,
    F: Fn(Vec3, Vec3, Real) -> Vec3,
>(before: DocModel, after: DocModel, t: Real, normal: N, about: G, place: F) -> bool {
    exists|f: usize, mesh: MeshModel|
        {
            &&& is_focus(before.selected_mesh()->0, before.selected_face, normal, Some(f))
            &&& #[trigger] stitched_about(
                before.selected_mesh()->0,
                mesh,
                f as int,
                t,
                about,
                place,
            )
            &&& after == (DocModel { selected_face: Some(f), ..before.with_mesh(mesh) })
        }
}

impl Document {
    /// Set the blend mode of the selected object. False if nothing is selected.
    pub fn set_selected_blend_mode(&mut self, mode: BlendMode) -> (r: bool)
        ensures
            r == (old(self)@.selected() is Some),
            r ==> final(self)@ == old(self)@.with_selected(
                (ObjectModel { blend_mode: mode, ..old(self)@.selected()->0 }),
            ),
            !r ==> final(self)@ == old(self)@,
            old(self).valid() ==> final(self).valid(),
    {
        match self.selected_mut() {
            Some(obj) => {
                let ghost before = obj@;
                obj.blend_mode = mode;
                assert(obj@ == (ObjectModel { blend_mode: mode, ..before }));
                true
            },
            None => false,
        }
    }

    /// Set the opacity of the selected object, held to 0 ..= 1. False if nothing is selected.
    pub fn set_selected_opacity(&mut self, opacity: Real) -> (r: bool)
        ensures
            r == (old(self)@.selected() is Some),
            r ==> final(self)@ == old(self)@.with_selected(
                (ObjectModel {
                    opacity: opacity.held(Real { bits: ZERO_BITS }, Real { bits: ONE_BITS }),
                    ..old(self)@.selected()->0
                }),
            ),
            !r ==> final(self)@ == old(self)@,
            old(self).valid() ==> final(self).valid(),
    {
        let held: Real = opacity.clamp(Real { bits: ZERO_BITS }, Real { bits: ONE_BITS });
        match self.selected_mut() {
            Some(obj) => {
                let ghost before = obj@;
                obj.opacity = held;
                assert(obj@ == (ObjectModel { opacity: held, ..before }));
                true
            },
            None => false,
        }
    }

    /// Set what the selected adjustment layer does. False if no adjustment layer is selected.
    pub fn set_selected_adjustment(&mut self, adjustment: AdjustmentKind) -> (r: bool)
        ensures
            r == (old(self)@.selected() is Some && old(self)@.selected()->0.kind
                == ObjectKind::Adjustment),
            r ==> final(self)@ == old(self)@.with_selected(
                (ObjectModel { adjustment: Some(adjustment), ..old(self)@.selected()->0 }),
            ),
            !r ==> final(self)@ == old(self)@,
            old(self).valid() ==> final(self).valid(),
    {
        let fits: bool = match self.selected_object() {
            Some(obj) => obj.kind == ObjectKind::Adjustment,
            None => false,
        };
        if !fits {
            return false;
        }
        match self.selected_mut() {
            Some(obj) => {
                let ghost before = obj@;
                obj.adjustment = Some(adjustment);
                assert(obj@ == (ObjectModel { adjustment: Some(adjustment), ..before }));
                true
            },
            None => false,
        }
    }

    /// Set the pose of a bone of an object. False if there is no such object or bone.
    pub fn set_bone_pose(&mut self, id: ObjId, bone_idx: usize, pose: Quat) -> (r: bool)
        ensures
            r == (old(self)@.arena.lookup(id) is Some && old(self)@.arena.lookup(
                id,
            )->0.skeleton is Some && bone_idx < old(self)@.arena.lookup(id)->0.skeleton->0.len()),
            r ==> final(self)@ == (DocModel {
                arena: old(self)@.arena.replaced(
                    id,
                    posed_object(old(self)@.arena.lookup(id)->0, bone_idx as int, pose),
                ),
                ..old(self)@
            }),
            !r ==> final(self)@ == old(self)@,
            old(self).valid() ==> final(self).valid(),
    {
        let fits: bool = match self.get(id) {
            Some(obj) => match &obj.skeleton {
                Some(skeleton) => bone_idx < skeleton.bones.len(),
                None => false,
            },
            None => false,
        };
        if !fits {
            return false;
        }
        match self.get_mut(id) {
            Some(obj) => {
                let ghost before = obj@;
                match obj.skeleton.as_mut() {
                    Some(skeleton) => {
                        let ghost bones = skeleton@;
                        assert(before.skeleton == Some(bones));
                        assert(bones.len() == skeleton.bones@.len());
                        let bone = &mut skeleton.bones[bone_idx];
                        bone.pose = pose;
                        assert(skeleton@ =~= bones.update(
                            bone_idx as int,
                            BoneModel { pose, ..bones[bone_idx as int] },
                        ));
                    },
                    None => {},
                }
                assert(obj@ == posed_object(before, bone_idx as int, pose));
                true
            },
            None => false,
        }
    }

    /// Set the pose of a bone of the selected object. False if there is no such bone.
    pub fn set_selected_bone_pose(&mut self, bone_idx: usize, pose: Quat) -> (r: bool)
        ensures
            r == (old(self)@.selected() is Some && old(self)@.selected()->0.skeleton is Some
                && bone_idx < old(self)@.selected()->0.skeleton->0.len()),
            r ==> final(self)@ == old(self)@.with_selected(
                posed_object(old(self)@.selected()->0, bone_idx as int, pose),
            ),
            !r ==> final(self)@ == old(self)@,
            old(self).valid() ==> final(self).valid(),
    {
        match self.selection() {
            Some(id) => self.set_bone_pose(id, bone_idx, pose),
            None => false,
        }
    }

    /// Select the face of the selected mesh that a ray of the world hits first. `local` is where the
    /// ray begins and goes in the space of an object, and `measure` tests such a ray against a
    /// triangle. None, and nothing changes, if no mesh is selected or no face is hit.
    pub fn pick_selected_mesh_face<
        A: Fn(Trs, Vec3, Vec3) -> (Vec3, Vec3),
        M: Fn(Vec3, Vec3, Vec3, Vec3, Vec3) -> TriangleHit,
    >(&mut self, ray_origin: Vec3, ray_dir: Vec3, local: &A, measure: &M) -> (r: Option<usize>)
        requires
            old(self)@.selected_mesh() matches Some(m) ==> m.in_range(),
            forall|w: Trs, o: Vec3, d: Vec3| #[trigger] (*local).requires((w, o, d)),
            forall|o: Vec3, d: Vec3, a: Vec3, b: Vec3, c: Vec3| #[trigger]
                (*measure).requires((o, d, a, b, c)),
        ensures
            old(self)@.selected_mesh() is None ==> r is None,
            old(self)@.selected_mesh() matches Some(m) ==> exists|found: Option<(usize, Real)>|
                #[trigger] is_picked(
                    m,
                    ray_origin,
                    ray_dir,
                    old(self)@.selected()->0.transform,
                    local,
                    measure,
                    found,
                ) && r == (match found {
                    Some(p) => Some(p.0),
                    None => None,
                }),
            r is Some ==> final(self)@ == (DocModel { selected_face: r, ..old(self)@ }),
            r is None ==> final(self)@ == old(self)@,
            old(self).valid() ==> final(self).valid(),
    {
        let ghost start = self@;
        let found: Option<(usize, Real)> = match self.selected_object() {
            Some(obj) => match &obj.mesh {
                Some(mesh) => mesh.pick_face(ray_origin, ray_dir, obj.transform, local, measure),
                None => None,
            },
            None => None,
        };
        proof {
            if let Some(m) = start.selected_mesh() {
                assert(is_picked(
                    m,
                    ray_origin,
                    ray_dir,
                    start.selected()->0.transform,
                    local,
                    measure,
                    found,
                ));
            }
        }
        match found {
            Some(p) => {
                self.set_selected_face(Some(p.0));
                Some(p.0)
            },
            None => None,
        }
    }

    /// Extrude the selected face of the selected mesh by `dist`, or the one that points most
    /// upward, and keep it selected. False if no mesh with a face is selected.
    pub fn extrude_selected_mesh<N: Fn(Vec<Vec3>) -> Vec3, R: Fn(Vec3, Vec3, Real) -> Vec3>(
        &mut self,
        dist: Real,
        normal: &N,
        raise: &R,
    ) -> (r: bool)
        requires
            old(self)@.selected_mesh_extends(),
            forall|points: Vec<Vec3>| normal.requires((points,)),
            forall|p: Vec3, n: Vec3, t: Real| raise.requires((p, n, t)),
        ensures
            r == (old(self)@.selected_mesh() is Some && old(self)@.selected_mesh()->0.faces.len()
                > 0),
            r ==> face_stitched(old(self)@, final(self)@, dist, *normal, *normal, *raise),
            !r ==> final(self)@ == old(self)@,
            old(self).valid() ==> final(self).valid(),
    {
        let ghost start = self@;
        let preferred: Option<usize> = self.selected_face();
        let focus: Option<usize> = match self.selected_object() {
            Some(obj) => match &obj.mesh {
                Some(mesh) => {
                    proof {
                        lemma_extends(start);
                    }
                    focus_of(mesh, preferred, normal)
                },
                None => None,
            },
            None => None,
        };
        let f: usize = match focus {
            Some(f) => f,
            None => {
                return false;
            },
        };
        let ghost old_mesh = start.selected_mesh()->0;
        let ghost mut new_mesh: MeshModel = old_mesh;
        match self.selected_mut() {
            Some(obj) => {
                let ghost before = obj@;
                match obj.mesh.as_mut() {
                    Some(mesh) => {
                        assert(face_extends(old_mesh, f as int));
                        mesh.extrude_face(f, dist, normal, raise);
                        proof {
                            new_mesh = mesh@;
                        }
                    },
                    None => {},
                }
                assert(obj@ == (ObjectModel { mesh: Some(new_mesh), ..before }));
            },
            None => {},
        }
        self.set_selected_face(Some(f));
        assert(stitched_about(old_mesh, new_mesh, f as int, dist, *normal, *raise));
        assert(self@ == (DocModel { selected_face: Some(f), ..start.with_mesh(new_mesh) }));
        true
    }

    /// Inset the selected face of the selected mesh, or the one that points most upward, and
    /// keep it selected. False if no mesh with a face is selected.
    pub fn inset_selected_mesh<
        N: Fn(Vec<Vec3>) -> Vec3,
        C: Fn(Vec<Vec3>) -> Vec3,
        S: Fn(Vec3, Vec3, Real) -> Vec3,
    >(&mut self, amount: Real, normal: &N, middle: &C, shrink: &S) -> (r: bool)
        requires
            old(self)@.selected_mesh_extends(),
            forall|points: Vec<Vec3>| normal.requires((points,)),
            forall|points: Vec<Vec3>| middle.requires((points,)),
            forall|p: Vec3, c: Vec3, t: Real| shrink.requires((p, c, t)),
        ensures
            r == (old(self)@.selected_mesh() is Some && old(self)@.selected_mesh()->0.faces.len()
                > 0),
            r ==> face_stitched(
                old(self)@,
                final(self)@,
                inset_fraction(amount),
                *normal,
                *middle,
                *shrink,
            ),
            !r ==> final(self)@ == old(self)@,
            old(self).valid() ==> final(self).valid(),
    {
        let ghost start = self@;
        let preferred: Option<usize> = self.selected_face();
        let focus: Option<usize> = match self.selected_object() {
            Some(obj) => match &obj.mesh {
                Some(mesh) => {
                    proof {
                        lemma_extends(start);
                    }
                    focus_of(mesh, preferred, normal)
                },
                None => None,
            },
            None => None,
        };
        let f: usize = match focus {
            Some(f) => f,
            None => {
                return false;
            },
        };
        let ghost old_mesh = start.selected_mesh()->0;
        let ghost mut new_mesh: MeshModel = old_mesh;
        match self.selected_mut() {
            Some(obj) => {
                let ghost before = obj@;
                match obj.mesh.as_mut() {
                    Some(mesh) => {
                        assert(face_extends(old_mesh, f as int));
                        mesh.inset_face(f, amount, middle, shrink);
                        proof {
                            new_mesh = mesh@;
                        }
                    },
                    None => {},
                }
                assert(obj@ == (ObjectModel { mesh: Some(new_mesh), ..before }));
            },
            None => {},
        }
        self.set_selected_face(Some(f));
        assert(stitched_about(
            old_mesh,
            new_mesh,
            f as int,
            inset_fraction(amount),
            *middle,
            *shrink,
        ));
        assert(self@ == (DocModel { selected_face: Some(f), ..start.with_mesh(new_mesh) }));
        true
    }
}

/// An object with another pose of one of its bones.
pub open spec fn posed_object(object: ObjectModel, bone: int, pose: Quat) -> ObjectModel {
    let bones = object.skeleton->0;
    ObjectModel {
        skeleton: Some(bones.update(bone, BoneModel { pose, ..bones[bone] })),
        ..object
    }
}

/// Whether a document after a cut or a bevel is the one that is meant: the selected mesh was
/// exchanged, and the face of the new mesh that points most upward is selected.
pub open spec fn remeshed<N: Fn(Vec<Vec3>) -> Vec3>(
    before: DocModel,
    after: DocModel,
    mesh: MeshModel,
    normal: N,
) -> bool {
    exists|top: Option<usize>| #[trigger]
        is_top(mesh, normal, top) && after == (DocModel {
            selected_face: top,
            ..before.with_mesh(mesh)
        })
}

/// Whether `mesh` is the selected mesh after a loop cut through the first edge of face `f`.
pub open spec fn is_loop_cut<M: Fn(Vec3, Vec3) -> Vec3>(
    before: MeshModel,
    mesh: MeshModel,
    f: usize,
    midpoint: M,
) -> bool {
    let face = before.faces[f as int];
    &&& face.len() >= 2
    &&& exists|ring: Seq<(u32, u32)>| #[trigger]
        ring_through(polygons(before.faces), face[0], face[1], ring) && crosses_any(
            before.faces,
            ring,
        ) && cut_along(
            before,
            mesh,
            ring,
            |p: Vec3, q: Vec3, m: Vec3| midpoint.ensures((p, q), m),
        )
}

/// Whether a loop cut through the first edge of face `f` fails: there is no such edge among
/// the polygons, or its ring crosses no quad.
pub open spec fn no_loop_cut(mesh: MeshModel, f: usize) -> bool {
    let face = mesh.faces[f as int];
    ||| face.len() < 2
    ||| !has_edge(polygons(mesh.faces), face[0], face[1])
    ||| exists|ring: Seq<(u32, u32)>| #[trigger]
        ring_through(polygons(mesh.faces), face[0], face[1], ring) && !crosses_any(mesh.faces, ring)
}

/// Whether `mesh` is the selected mesh after a bevel of the first edge of face `f`.
pub open spec fn is_edge_bevel<P: Fn(Vec3, Vec3, Real) -> Vec3>(
    before: MeshModel,
    mesh: MeshModel,
    f: usize,
    pull: P,
) -> bool {
    let face = before.faces[f as int];
    &&& face.len() >= 2
    &&& exists|k0: int, j0: int, k1: int, j1: int| #[trigger]
        first_side(polygons(before.faces), k0, j0, face[0], face[1]) && #[trigger] last_side(
            polygons(before.faces),
            k1,
            j1,
            face[1],
            face[0],
        ) && edge_beveled(
            before,
            mesh,
            face[0],
            face[1],
            k0,
            j0,
            k1,
            j1,
            |p: Vec3, q: Vec3, n: Vec3|
                pull.ensures((p, q, bevel_fraction(Real { bits: QUARTER_BITS })), n),
        )
}

/// Whether a bevel of the first edge of face `f` fails: no polygon walks it, or none walks it
/// back.
pub open spec fn no_edge_bevel(mesh: MeshModel, f: usize) -> bool {
    let face = mesh.faces[f as int];
    ||| face.len() < 2
    ||| forall|k: int, j: int| !(#[trigger] side_is(polygons(mesh.faces), k, j, face[0], face[1]))
    ||| forall|k: int, j: int| !(#[trigger] side_is(polygons(mesh.faces), k, j, face[1], face[0]))
}

/// Whether `mesh` is the selected mesh after a bevel of the first corner of face `f`.
pub open spec fn is_corner_bevel<P: Fn(Vec3, Vec3, Real) -> Vec3>(
    before: MeshModel,
    mesh: MeshModel,
    f: usize,
    pull: P,
) -> bool {
    let face = before.faces[f as int];
    &&& face.len() >= 1
    &&& exists|hes: Seq<HalfEdge>, fan: Seq<u32>| #[trigger]
        corner_fan(polygons(before.faces), face[0], hes, fan) && corner_cut(
            before,
            mesh,
            face[0],
            spokes(hes, fan),
            |p: Vec3, q: Vec3, n: Vec3|
                pull.ensures((p, q, bevel_fraction(Real { bits: QUARTER_BITS })), n),
        )
}

/// Whether a bevel of the first corner of face `f` fails: it has no closed fan of three.
pub open spec fn no_corner_bevel(mesh: MeshModel, f: usize) -> bool {
    let face = mesh.faces[f as int];
    ||| face.len() < 1
    ||| forall|hes: Seq<HalfEdge>, fan: Seq<u32>| !(#[trigger] corner_fan(
        polygons(mesh.faces),
        face[0],
        hes,
        fan,
    ))
}

/// A ring has no more edges than the polygons have sides.
proof fn lemma_ring_bounded(polys: Seq<Seq<u32>>, a: u32, b: u32, ring: Seq<(u32, u32)>)
    requires
        ring_through(polys, a, b, ring),
        side_count(polys) <= u32::MAX,
    ensures
        ring.len() <= side_count(polys),
{
    let (hes, h) = choose|hes: Seq<HalfEdge>, h: u32|
        crate::mesh_edit::half_edges_of(hes, polys) && crate::mesh_edit::first_spanning(hes, a, b, h)
            && #[trigger] crate::halfedge::edge_chain(hes, crate::halfedge::crossing(hes), h, ring);
    let starts = choose|starts: Seq<u32>| crate::halfedge::lists_sides(hes, starts, polys);
    crate::halfedge::lemma_ring_inside(hes, starts, polys, h, ring);
}

impl Document {
    /// Exchange the selected mesh and select its face that points most upward.
    fn exchange_mesh<N: Fn(Vec<Vec3>) -> Vec3>(&mut self, mesh: Mesh, normal: &N)
        requires
            old(self)@.selected() is Some,
            mesh@.in_range(),
            forall|points: Vec<Vec3>| normal.requires((points,)),
        ensures
            remeshed(old(self)@, final(self)@, mesh@, *normal),
            old(self).valid() ==> final(self).valid(),
    {
        let ghost start = self@;
        let ghost shape = mesh@;
        let top: Option<usize> = mesh.top_face_index(normal);
        match self.selected_mut() {
            Some(obj) => {
                let ghost before = obj@;
                obj.mesh = Some(mesh);
                assert(obj@ == (ObjectModel { mesh: Some(shape), ..before }));
            },
            None => {},
        }
        self.set_selected_face(top);
        assert(is_top(shape, *normal, top));
        assert(self@ == (DocModel { selected_face: top, ..start.with_mesh(shape) }));
    }

    /// Loop cut the selected mesh through the first edge of the selected face, or of the one
    /// that points most upward, and select the face that points most upward afterwards. False,
    /// and nothing changes, if no mesh with a face is selected or there is nothing to cut.
    pub fn loop_cut_selected_mesh<N: Fn(Vec<Vec3>) -> Vec3, M: Fn(Vec3, Vec3) -> Vec3>(
        &mut self,
        normal: &N,
        midpoint: M,
    ) -> (r: bool)
        requires
            old(self)@.selected_mesh_cuts(),
            forall|points: Vec<Vec3>| normal.requires((points,)),
            forall|p: Vec3, q: Vec3| midpoint.requires((p, q)),
        ensures
            r ==> old(self)@.selected_mesh() is Some && exists|f: usize, mesh: MeshModel|
                is_focus(
                    old(self)@.selected_mesh()->0,
                    old(self)@.selected_face,
                    *normal,
                    Some(f),
                ) && #[trigger] is_loop_cut(old(self)@.selected_mesh()->0, mesh, f, midpoint)
                    && remeshed(old(self)@, final(self)@, mesh, *normal),
            !r ==> final(self)@ == old(self)@,
            !r ==> (old(self)@.selected_mesh() matches Some(m) ==> m.faces.len() == 0 || exists|
                f: usize,
            |
                is_focus(m, old(self)@.selected_face, *normal, Some(f)) && #[trigger] no_loop_cut(
                    m,
                    f,
                )),
            old(self).valid() ==> final(self).valid(),
    {
        let ghost start = self@;
        let preferred: Option<usize> = self.selected_face();
        let mesh: &Mesh = match self.selected_object() {
            Some(obj) => match &obj.mesh {
                Some(mesh) => mesh,
                None => {
                    return false;
                },
            },
            None => {
                return false;
            },
        };
        let ghost old_mesh = mesh@;
        assert(start.selected_mesh() == Some(old_mesh));
        let f: usize = match focus_of(mesh, preferred, normal) {
            Some(f) => f,
            None => {
                return false;
            },
        };
        let face = &mesh.faces[f].indices;
        assert(old_mesh.faces[f as int] == face@);
        if face.len() < 2 {
            assert(no_loop_cut(old_mesh, f));
            return false;
        }
        let a: u32 = face[0];
        let b: u32 = face[1];
        let cut: Mesh = match mesh.loop_cut(a, b, midpoint) {
            Some(cut) => cut,
            None => {
                assert(no_loop_cut(old_mesh, f));
                return false;
            },
        };
        assert(is_loop_cut(old_mesh, cut@, f, midpoint));
        proof {
            let ring = choose|ring: Seq<(u32, u32)>| #[trigger]
                ring_through(polygons(old_mesh.faces), a, b, ring) && crosses_any(
                    old_mesh.faces,
                    ring,
                ) && cut_along(
                    old_mesh,
                    cut@,
                    ring,
                    |p: Vec3, q: Vec3, m: Vec3| midpoint.ensures((p, q), m),
                );
            lemma_ring_bounded(polygons(old_mesh.faces), a, b, ring);
            loop_cut_keeps_range(
                old_mesh,
                cut@,
                ring,
                |p: Vec3, q: Vec3, m: Vec3| midpoint.ensures((p, q), m),
            );
        }
        self.exchange_mesh(cut, normal);
        true
    }

    /// Bevel the first edge of the selected face of the selected mesh, or of the one that
    /// points most upward, by one quarter, and select the face that points most upward
    /// afterwards. False, and nothing changes, if no mesh with a face is selected or the edge
    /// is not shared by two polygons.
    pub fn bevel_selected_mesh_edge<N: Fn(Vec<Vec3>) -> Vec3, P: Fn(Vec3, Vec3, Real) -> Vec3>(
        &mut self,
        normal: &N,
        pull: P,
    ) -> (r: bool)
        requires
            old(self)@.selected_mesh_cuts(),
            forall|points: Vec<Vec3>| normal.requires((points,)),
            forall|p: Vec3, q: Vec3, t: Real| pull.requires((p, q, t)),
        ensures
            r ==> old(self)@.selected_mesh() is Some && exists|f: usize, mesh: MeshModel|
                is_focus(
                    old(self)@.selected_mesh()->0,
                    old(self)@.selected_face,
                    *normal,
                    Some(f),
                ) && #[trigger] is_edge_bevel(old(self)@.selected_mesh()->0, mesh, f, pull)
                    && remeshed(old(self)@, final(self)@, mesh, *normal),
            !r ==> final(self)@ == old(self)@,
            !r ==> (old(self)@.selected_mesh() matches Some(m) ==> m.faces.len() == 0 || exists|
                f: usize,
            |
                is_focus(m, old(self)@.selected_face, *normal, Some(f)) && #[trigger] no_edge_bevel(
                    m,
                    f,
                )),
            old(self).valid() ==> final(self).valid(),
    {
        let ghost start = self@;
        let preferred: Option<usize> = self.selected_face();
        let mesh: &Mesh = match self.selected_object() {
            Some(obj) => match &obj.mesh {
                Some(mesh) => mesh,
                None => {
                    return false;
                },
            },
            None => {
                return false;
            },
        };
        let ghost old_mesh = mesh@;
        assert(start.selected_mesh() == Some(old_mesh));
        proof {
            crate::halfedge::lemma_side_count_positive(polygons(old_mesh.faces));
        }
        let f: usize = match focus_of(mesh, preferred, normal) {
            Some(f) => f,
            None => {
                return false;
            },
        };
        let face = &mesh.faces[f].indices;
        assert(old_mesh.faces[f as int] == face@);
        if face.len() < 2 {
            assert(no_edge_bevel(old_mesh, f));
            return false;
        }
        let a: u32 = face[0];
        let b: u32 = face[1];
        let made: Mesh = match mesh.bevel_edge(a, b, Real { bits: QUARTER_BITS }, pull) {
            Some(made) => made,
            None => {
                assert(no_edge_bevel(old_mesh, f));
                return false;
            },
        };
        assert(is_edge_bevel(old_mesh, made@, f, pull));
        proof {
            let pulled = |p: Vec3, q: Vec3, n: Vec3|
                pull.ensures((p, q, bevel_fraction(Real { bits: QUARTER_BITS })), n);
            let (k0, j0, k1, j1) = choose|k0: int, j0: int, k1: int, j1: int| #[trigger]
                first_side(polygons(old_mesh.faces), k0, j0, a, b) && #[trigger] last_side(
                    polygons(old_mesh.faces),
                    k1,
                    j1,
                    b,
                    a,
                ) && edge_beveled(old_mesh, made@, a, b, k0, j0, k1, j1, pulled);
            edge_bevel_keeps_range(old_mesh, made@, a, b, k0, j0, k1, j1, pulled);
        }
        self.exchange_mesh(made, normal);
        true
    }

    /// Bevel the first corner of the selected face of the selected mesh, or of the one that
    /// points most upward, by one quarter, and select the face that points most upward
    /// afterwards. False, and nothing changes, if no mesh with a face is selected or the corner
    /// has no closed fan of three edges.
    pub fn bevel_selected_mesh_corner<N: Fn(Vec<Vec3>) -> Vec3, P: Fn(Vec3, Vec3, Real) -> Vec3>(
        &mut self,
        normal: &N,
        pull: P,
    ) -> (r: bool)
        requires
            old(self)@.selected_mesh_cuts(),
            old(self)@.selected_mesh() matches Some(m) ==> forall|f: usize|
                #[trigger] is_focus(m, old(self)@.selected_face, *normal, Some(f)) && f
                    < m.faces.len() && m.faces[f as int].len() > 0 ==> corner_closed(
                    m,
                    m.faces[f as int][0],
                ),
            forall|points: Vec<Vec3>| normal.requires((points,)),
            forall|p: Vec3, q: Vec3, t: Real| pull.requires((p, q, t)),
        ensures
            r ==> old(self)@.selected_mesh() is Some && exists|f: usize, mesh: MeshModel|
                is_focus(
                    old(self)@.selected_mesh()->0,
                    old(self)@.selected_face,
                    *normal,
                    Some(f),
                ) && #[trigger] is_corner_bevel(old(self)@.selected_mesh()->0, mesh, f, pull)
                    && remeshed(old(self)@, final(self)@, mesh, *normal),
            !r ==> final(self)@ == old(self)@,
            !r ==> (old(self)@.selected_mesh() matches Some(m) ==> m.faces.len() == 0 || exists|
                f: usize,
            |
                is_focus(m, old(self)@.selected_face, *normal, Some(f)) && #[trigger] no_corner_bevel(
                    m,
                    f,
                )),
            old(self).valid() ==> final(self).valid(),
    {
        let ghost start = self@;
        let preferred: Option<usize> = self.selected_face();
        let mesh: &Mesh = match self.selected_object() {
            Some(obj) => match &obj.mesh {
                Some(mesh) => mesh,
                None => {
                    return false;
                },
            },
            None => {
                return false;
            },
        };
        let ghost old_mesh = mesh@;
        assert(start.selected_mesh() == Some(old_mesh));
        let f: usize = match focus_of(mesh, preferred, normal) {
            Some(f) => f,
            None => {
                return false;
            },
        };
        let face = &mesh.faces[f].indices;
        assert(old_mesh.faces[f as int] == face@);
        if face.len() == 0 {
            assert(no_corner_bevel(old_mesh, f));
            return false;
        }
        let v: u32 = face[0];
        assert(is_focus(old_mesh, start.selected_face, *normal, Some(f)));
        assert(corner_closed(old_mesh, v));
        let made: Mesh = match mesh.bevel_vertex(v, Real { bits: QUARTER_BITS }, pull) {
            Some(made) => made,
            None => {
                assert(no_corner_bevel(old_mesh, f));
                return false;
            },
        };
        assert(is_corner_bevel(old_mesh, made@, f, pull));
        proof {
            let pulled = |p: Vec3, q: Vec3, n: Vec3|
                pull.ensures((p, q, bevel_fraction(Real { bits: QUARTER_BITS })), n);
            let (hes, fan) = choose|hes: Seq<HalfEdge>, fan: Seq<u32>| #[trigger]
                corner_fan(polygons(old_mesh.faces), v, hes, fan) && corner_cut(
                    old_mesh,
                    made@,
                    v,
                    spokes(hes, fan),
                    pulled,
                );
            assert(crate::mesh::face_below(old_mesh.faces[f as int], old_mesh.vertices.len()));
            assert(old_mesh.faces[f as int][0] < old_mesh.vertices.len());
            let starts = choose|starts: Seq<u32>|
                crate::halfedge::lists_sides(hes, starts, polygons(old_mesh.faces));
            assert(fan.len() <= hes.len());
            assert(hes.len() == side_count(polygons(old_mesh.faces)));
            corner_bevel_keeps_range(old_mesh, made@, v, spokes(hes, fan), pulled);
        }
        self.exchange_mesh(made, normal);
        true
    }
}

} // verus!
