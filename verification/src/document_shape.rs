//! Rigging, sculpting, combining and making mesh objects of a document.
use crate::arena::removing_keeps_other_names;
use crate::brush::{drawn, flattened, pinched, sculpts, smoothed, Corner, Sculptor};
use crate::document::{fresh_mesh, DocModel, Document};
use crate::kinds::ObjectKind;
use crate::mesh::{Mesh, MeshModel};
use crate::mesh_shapes::{at_least_two, is_lathe, is_relief, is_tube, slices, two_or_more};
use crate::number::{Real, Vec3, ONE_BITS, ZERO_BITS};
use crate::object::{unmoved, ObjId, ObjectModel, Trs};
use crate::rig::{spine_of, vertex_skinned, Skeleton, Skin};
use vstd::prelude::*;

verus! {

/// Whether a skeleton is a spine along the mesh, and a skin binds the mesh to it.
pub open spec fn is_rigged<
    S: Fn(Real, Real) -> Real,
    M: Fn(Real, Real) -> Real,
    L: Fn(Vec3, Vec3, usize, usize) -> Vec3,
    D: Fn(Vec3, Vec3, Vec3) -> Real,
    W: Fn(Real, Real) -> (Real, Real),
>(
    mesh: MeshModel,
    n_bones: u32,
    side: &S,
    middle: &M,
    along: &L,
    distance: D,
    weigh: W,
    skeleton: Skeleton,
    skin: Skin,
) -> bool {
    &&& mesh.vertices.len() == 0 ==> skeleton.bones.len() == 0
    &&& mesh.vertices.len() > 0 ==> spine_of(
        mesh.vertices,
        n_bones,
        side,
        middle,
        along,
        skeleton.bones@,
    )
    &&& skin.indices.len() == mesh.vertices.len()
    &&& skin.weights.len() == mesh.vertices.len()
    &&& forall|v: int|
        0 <= v < mesh.vertices.len() ==> vertex_skinned(
            skeleton.bones@,
            #[trigger] mesh.vertices[v],
            distance,
            weigh,
            skin.indices[v]@,
            skin.weights[v]@,
        )
}

/// The strength of a smoothing stroke: held to 0 ..= 1, and one where it is no number.
pub open spec fn smooth_factor(strength: Real) -> Real {
    let zero = Real { bits: ZERO_BITS };
    let one = Real { bits: ONE_BITS };
    if strength.nan() || one.less(strength) {
        one
    } else if zero.less(strength) {
        strength
    } else {
        zero
    }
}

fn smooth_factor_of(strength: Real) -> (r: Real)
    ensures
        r == smooth_factor(strength),
{
    let zero: Real = Real { bits: ZERO_BITS };
    let one: Real = Real { bits: ONE_BITS };
    if strength.is_nan() || one.lt(strength) {
        one
    } else if zero.lt(strength) {
        strength
    } else {
        zero
    }
}

/// Whether `after` is `before` after a stroke: 0 draws, 1 smooths, 2 flattens, 3 pinches, and
/// any other number does nothing.
pub open spec fn is_stroke<
    W,
    A: Fn(W, Vec3) -> Vec3,
    H: Fn(Vec3, Vec3, Real) -> Option<Real>,
    N: Fn(Vec<Vec3>) -> Vec3,
    S: Fn(Vec<Corner>) -> Vec3,
    D: Fn(Vec3, Vec3, Real, Real) -> Vec3,
    E: Fn(Vec3, Vec<Vec3>, Real, Real) -> Vec3,
    T: Fn(Vec3, Vec3, Real) -> bool,
    L: Fn(Vec<Vec3>) -> Option<Vec3>,
    P: Fn(Vec3, Vec3, Vec3, Real, Real) -> Vec3,
    I: Fn(Vec3, Vec3, Real, Real) -> Vec3,
>(
    before: MeshModel,
    after: MeshModel,
    moved: bool,
    center: Vec3,
    radius: Real,
    strength: Real,
    op: u8,
    world: W,
    by: &Sculptor<A, H, N, S, D, E, T, L, P, I>,
) -> bool {
    if op == 0 {
        drawn(before, after, moved, center, radius, strength, world, by)
    } else if op == 1 {
        smoothed(before, after, moved, center, radius, smooth_factor(strength), world, by)
    } else if op == 2 {
        flattened(before, after, moved, center, radius, strength, world, by)
    } else if op == 3 {
        pinched(before, after, moved, center, radius, strength, world, by)
    } else {
        !moved && after == before
    }
}

/// How two solids are combined.
#[derive(Clone, Copy, Debug, PartialEq, Eq, Structural)]
pub enum BooleanOp {
    Union,
    Subtract,
    Intersect,
}

/// The operation of a number: 1 subtracts, 2 intersects, and any other number unites.
pub open spec fn boolean_op(op: u8) -> BooleanOp {
    if op == 1 {
        BooleanOp::Subtract
    } else if op == 2 {
        BooleanOp::Intersect
    } else {
        BooleanOp::Union
    }
}

impl DocModel {
    /// Whether the selected object and another one can be combined: both are of the mesh kind
    /// and have a mesh.
    pub open spec fn combines_with(self, tool: ObjId) -> bool {
        &&& self.selection != Some(tool)
        &&& self.selects_mesh_kind()
        &&& self.arena.lookup(tool) is Some
        &&& self.arena.lookup(tool)->0.kind == ObjectKind::Mesh
        &&& self.arena.lookup(tool)->0.mesh is Some
    }

    /// The document after the selected object took the result of a combination, and the other
    /// object went: the result lies where it is, so the transform changes nothing any more.
    pub open spec fn combined(self, tool: ObjId, mesh: MeshModel) -> DocModel {
        let gone = DocModel { arena: self.arena.removed(tool), ..self };
        DocModel {
            selected_face: None,
            ..gone.with_selected(
                ObjectModel { mesh: Some(mesh), transform: unmoved(), ..self.selected()->0 },
            )
        }
    }
}

/// Whether `found` is what `solve` makes of the selected mesh and the mesh of another object.
pub open spec fn is_solved<S: Fn(BooleanOp, Trs, Mesh, Trs, Mesh) -> Option<Mesh>>(
    doc: DocModel,
    tool: ObjId,
    op: u8,
    solve: S,
    found: Option<Mesh>,
) -> bool {
    exists|a: Mesh, b: Mesh| #[trigger]
        solve.ensures(
            (
                boolean_op(op),
                doc.selected()->0.transform,
                a,
                doc.arena.lookup(tool)->0.transform,
                b,
            ),
            found,
        ) && a@ == doc.selected()->0.mesh->0 && b@ == doc.arena.lookup(tool)->0.mesh->0
}

impl Document {
    /// Put a spine along the selected mesh, and bind the mesh to it. False if no mesh is selected,
    /// or it has no vertices.
    pub fn auto_rig_selected_mesh<
        S: Fn(Real, Real) -> Real,
        M: Fn(Real, Real) -> Real,
        L: Fn(Vec3, Vec3, usize, usize) -> Vec3,
        D: Fn(Vec3, Vec3, Vec3) -> Real,
        W: Fn(Real, Real) -> (Real, Real),
    >(
        &mut self,
        n_bones: u32,
        side: &S,
        middle: &M,
        along: &L,
        distance: D,
        weigh: W,
    ) -> (r: bool)
        requires
            forall|a: Real, b: Real| #[trigger] (*side).requires((a, b)),
            forall|a: Real, b: Real| #[trigger] (*middle).requires((a, b)),
            forall|p: Vec3, q: Vec3, i: usize, n: usize| #[trigger]
                (*along).requires((p, q, i, n)),
            forall|p: Vec3, a: Vec3, b: Vec3| distance.requires((p, a, b)),
            forall|p: Vec3, a: Vec3, b: Vec3, d: Real| #[trigger]
                distance.ensures((p, a, b), d) ==> !d.nan(),
            forall|a: Real, b: Real| weigh.requires((a, b)),
        ensures
            r == (old(self)@.selects_mesh_kind() && old(self)@.selected_mesh()->0.vertices.len()
                > 0),
            old(self)@.selects_mesh_kind() ==> exists|skeleton: Skeleton, skin: Skin|
                #[trigger] is_rigged(
                    old(self)@.selected_mesh()->0,
                    n_bones,
                    side,
                    middle,
                    along,
                    distance,
                    weigh,
                    skeleton,
                    skin,
                ) && final(self)@ == old(self)@.with_selected(
                    (ObjectModel {
                        skeleton: Some(skeleton@),
                        skin: Some(skin@),
                        ..old(self)@.selected()->0
                    }),
                ),
            !old(self)@.selects_mesh_kind() ==> final(self)@ == old(self)@,
            old(self).valid() ==> final(self).valid(),
    {
        let ghost start = self@;
        let (skeleton, skin): (Skeleton, Skin) = match self.selected_object() {
            Some(obj) => {
                if obj.kind != ObjectKind::Mesh {
                    return false;
                }
                match &obj.mesh {
                    Some(mesh) => {
                        let skeleton = Skeleton::auto_rig_from_mesh(
                            mesh,
                            n_bones,
                            side,
                            middle,
                            along,
                        );
                        let skin = skeleton.auto_skin(mesh, distance, weigh);
                        (skeleton, skin)
                    },
                    None => {
                        return false;
                    },
                }
            },
            None => {
                return false;
            },
        };
        let has_bones: bool = skeleton.bones.len() > 0;
        let ghost (bones, bind) = (skeleton, skin);
        match self.selected_mut() {
            Some(obj) => {
                let ghost before = obj@;
                obj.skeleton = Some(skeleton);
                obj.skin = Some(skin);
                assert(obj@ == (ObjectModel {
                    skeleton: Some(bones@),
                    skin: Some(bind@),
                    ..before
                }));
            },
            None => {},
        }
        assert(is_rigged(
            start.selected_mesh()->0,
            n_bones,
            side,
            middle,
            along,
            distance,
            weigh,
            bones,
            bind,
        ));
        has_bones
    }

    /// Apply a sculpting stroke to the selected mesh, around `center` in the world: 0 draws, 1
    /// smooths, 2 flattens, 3 pinches, and any other number does nothing. True if a vertex moved.
    /// False if no mesh is selected.
    pub fn sculpt_stroke<
        A: Fn(Trs, Vec3) -> Vec3,
        H: Fn(Vec3, Vec3, Real) -> Option<Real>,
        N: Fn(Vec<Vec3>) -> Vec3,
        S: Fn(Vec<Corner>) -> Vec3,
        D: Fn(Vec3, Vec3, Real, Real) -> Vec3,
        E: Fn(Vec3, Vec<Vec3>, Real, Real) -> Vec3,
        T: Fn(Vec3, Vec3, Real) -> bool,
        L: Fn(Vec<Vec3>) -> Option<Vec3>,
        P: Fn(Vec3, Vec3, Vec3, Real, Real) -> Vec3,
        I: Fn(Vec3, Vec3, Real, Real) -> Vec3,
    >(
        &mut self,
        center: Vec3,
        radius: Real,
        strength: Real,
        op: u8,
        by: &Sculptor<A, H, N, S, D, E, T, L, P, I>,
    ) -> (r: bool)
        requires
            old(self)@.selects_mesh_kind() && op <= 2 ==> old(self)@.selected_mesh()->0.in_range(),
            sculpts::<Trs, A, H, N, S, D, E, T, L, P, I>(by),
        ensures
            !old(self)@.selects_mesh_kind() ==> !r && final(self)@ == old(self)@,
            old(self)@.selects_mesh_kind() ==> exists|mesh: MeshModel|
                #[trigger] is_stroke(
                    old(self)@.selected_mesh()->0,
                    mesh,
                    r,
                    center,
                    radius,
                    strength,
                    op,
                    old(self)@.selected()->0.transform,
                    by,
                ) && final(self)@ == old(self)@.with_mesh(mesh),
            old(self).valid() ==> final(self).valid(),
    {
        let ghost start = self@;
        let factor: Real = smooth_factor_of(strength);
        let fits: bool = match self.selected_object() {
            Some(obj) => obj.kind == ObjectKind::Mesh && obj.mesh.is_some(),
            None => false,
        };
        if !fits {
            return false;
        }
        let ghost old_mesh = start.selected_mesh()->0;
        let ghost mut new_mesh: MeshModel = old_mesh;
        let mut moved: bool = false;
        match self.selected_mut() {
            Some(obj) => {
                let ghost before = obj@;
                let world: Trs = obj.transform;
                match obj.mesh.as_mut() {
                    Some(mesh) => {
                        moved = if op == 0 {
                            mesh.sculpt_draw(center, radius, strength, world, by)
                        } else if op == 1 {
                            mesh.sculpt_smooth(center, radius, factor, world, by)
                        } else if op == 2 {
                            mesh.sculpt_flatten(center, radius, strength, world, by)
                        } else if op == 3 {
                            mesh.sculpt_pinch(center, radius, strength, world, by)
                        } else {
                            false
                        };
                        proof {
                            new_mesh = mesh@;
                        }
                    },
                    None => {},
                }
                assert(obj@ == (ObjectModel { mesh: Some(new_mesh), ..before }));
            },
            None => {},
        }
        assert(is_stroke(
            old_mesh,
            new_mesh,
            moved,
            center,
            radius,
            strength,
            op,
            start.selected()->0.transform,
            by,
        ));
        assert(self@ == start.with_mesh(new_mesh));
        moved
    }

    /// Combine the selected mesh with the mesh of another object: 1 subtracts, 2 intersects, and
    /// any other number unites. `solve` combines two meshes where their transforms put them.
    /// The selected object takes the result and an unmoved transform, and the other object
    /// goes. False, and nothing changes, if the objects cannot be combined or there is no
    /// result.
    pub fn apply_boolean<S: Fn(BooleanOp, Trs, Mesh, Trs, Mesh) -> Option<Mesh>>(
        &mut self,
        tool_id: ObjId,
        op: u8,
        solve: S,
    ) -> (r: bool)
        requires
            old(self).valid(),
            forall|o: BooleanOp, s: Trs, a: Mesh, t: Trs, b: Mesh| solve.requires((o, s, a, t, b)),
        ensures
            final(self).valid(),
            !old(self)@.combines_with(tool_id) ==> !r,
            old(self)@.combines_with(tool_id) ==> exists|found: Option<Mesh>|
                #[trigger] is_solved(old(self)@, tool_id, op, solve, found) && r == (found is Some)
                    && (found matches Some(mesh) ==> final(self)@ == old(self)@.combined(
                    tool_id,
                    mesh@,
                )),
            !r ==> final(self)@ == old(self)@,
    {
        let ghost start = self@;
        let sel_id: ObjId = match self.selection() {
            Some(id) => id,
            None => {
                return false;
            },
        };
        if sel_id == tool_id {
            return false;
        }
        let (sel_world, sel_mesh): (Trs, Mesh) = match self.get(sel_id) {
            Some(o) => {
                if o.kind != ObjectKind::Mesh {
                    return false;
                }
                match &o.mesh {
                    Some(m) => (o.transform, m.copy()),
                    None => {
                        return false;
                    },
                }
            },
            None => {
                return false;
            },
        };
        let (tool_world, tool_mesh): (Trs, Mesh) = match self.get(tool_id) {
            Some(o) => {
                if o.kind != ObjectKind::Mesh {
                    return false;
                }
                match &o.mesh {
                    Some(m) => (o.transform, m.copy()),
                    None => {
                        return false;
                    },
                }
            },
            None => {
                return false;
            },
        };
        let kind: BooleanOp = if op == 1 {
            BooleanOp::Subtract
        } else if op == 2 {
            BooleanOp::Intersect
        } else {
            BooleanOp::Union
        };
        let ghost (a, b) = (sel_mesh, tool_mesh);
        let found: Option<Mesh> = solve(kind, sel_world, sel_mesh, tool_world, tool_mesh);
        let ghost result = found;
        assert(is_solved(start, tool_id, op, solve, result)) by {
            assert(solve.ensures((kind, sel_world, a, tool_world, b), result));
        }
        let mesh: Mesh = match found {
            Some(m) => m,
            None => {
                return false;
            },
        };
        let ghost shape = mesh@;
        proof {
            removing_keeps_other_names(start.arena, tool_id);
        }
        let _ = self.remove(tool_id);
        assert(self@.selected() == start.selected());
        match self.selected_mut() {
            Some(obj) => {
                let ghost before = obj@;
                obj.mesh = Some(mesh);
                obj.transform = Trs::default();
                assert(obj@ == (ObjectModel {
                    mesh: Some(shape),
                    transform: unmoved(),
                    ..before
                }));
            },
            None => {},
        }
        self.set_selected_face(None);
        assert(self@ == start.combined(tool_id, shape));
        true
    }

    /// Make a mesh object over a grid of the pixels of a picture, rows of RGBA. The grid is the
    /// size of the picture, but no finer than `resolution` points along each side, and reads the
    /// picture at even steps.
    pub fn add_heightmap_mesh<P: Fn(usize, usize, usize, usize, Option<(u8, u8, u8)>) -> Vec3>(
        &mut self,
        pixels: &[u8],
        img_width: u32,
        img_height: u32,
        resolution: u32,
        position: Vec3,
        place: P,
    ) -> (r: ObjId)
        requires
            old(self).valid(),
            old(self)@.has_room(),
            img_width > 0,
            img_height > 0,
            resolution > 0,
            at_least_two(smaller(img_height, resolution)) * at_least_two(
                smaller(img_width, resolution),
            ) <= u32::MAX,
            forall|x: usize, y: usize, w: usize, h: usize, c: Option<(u8, u8, u8)>|
                place.requires((x, y, w, h, c)),
        ensures
            final(self).valid(),
            r == old(self)@.arena.next_id(),
            exists|mesh: MeshModel|
                #[trigger] is_relief(
                    mesh,
                    pixels@,
                    img_width as int,
                    img_height as int,
                    at_least_two(smaller(img_width, resolution)),
                    at_least_two(smaller(img_height, resolution)),
                    place,
                ) && final(self)@ == old(self)@.with_new(
                    fresh_mesh("Heightmap"@, old(self)@.serial(), position, mesh),
                ),
    {
        let w: u32 = if img_width < resolution {
            img_width
        } else {
            resolution
        };
        let h: u32 = if img_height < resolution {
            img_height
        } else {
            resolution
        };
        let mesh = Mesh::relief(
            pixels,
            img_width,
            img_height,
            two_or_more(w),
            two_or_more(h),
            place,
        );
        let ghost shape = mesh@;
        assert(is_relief(
            shape,
            pixels@,
            img_width as int,
            img_height as int,
            at_least_two(smaller(img_width, resolution)),
            at_least_two(smaller(img_height, resolution)),
            place,
        ));
        self.add_mesh("Heightmap", position, mesh)
    }

    /// Make a pipe: a cross-section of `shape_len` points along a path of `path_len` points, moved
    /// to `position`. `place` puts the points of the pipe, and `shift` moves them. They lie where
    /// they are in the scene, so the transform changes nothing.
    pub fn add_pipe<P: Fn(usize, usize) -> Vec3, S: Fn(Vec3, Vec3) -> Vec3>(
        &mut self,
        path_len: usize,
        shape_len: usize,
        position: Vec3,
        place: P,
        shift: &S,
    ) -> (r: ObjId)
        requires
            old(self).valid(),
            old(self)@.has_room(),
            path_len >= 2,
            shape_len >= 3,
            path_len * shape_len <= u32::MAX,
            forall|s: usize, p: usize| place.requires((s, p)),
            forall|p: Vec3, by: Vec3| #[trigger] (*shift).requires((p, by)),
        ensures
            final(self).valid(),
            r == old(self)@.arena.next_id(),
            exists|tube: MeshModel, mesh: MeshModel|
                #[trigger] is_tube(tube, path_len as int, shape_len as int, place)
                    && #[trigger] is_shifted(tube, mesh, position, shift) && final(self)@ == old(
                    self,
                )@.with_new(
                    fresh_mesh("Pipe"@, old(self)@.serial(), unmoved().translation, mesh),
                ),
    {
        let mut mesh = Mesh::path_extrude(path_len, shape_len, place);
        let ghost tube = mesh@;
        assert(is_tube(tube, path_len as int, shape_len as int, place));
        mesh.shift_by(position, shift);
        let ghost shape = mesh@;
        assert(is_shifted(tube, shape, position, shift));
        let base: Trs = Trs::default();
        self.add_mesh("Pipe", base.translation, mesh)
    }

    /// Make a lathe: a profile turned around the axis in `steps` slices.
    pub fn add_lathe<P: Fn(usize, usize, Real, Real) -> Vec3>(
        &mut self,
        profile: &Vec<(Real, Real)>,
        steps: u32,
        position: Vec3,
        place: P,
    ) -> (r: ObjId)
        requires
            old(self).valid(),
            old(self)@.has_room(),
            profile.len() >= 2,
            slices(steps as int) * profile.len() + 2 <= u32::MAX,
            forall|s: usize, n: usize, r: Real, y: Real| place.requires((s, n, r, y)),
        ensures
            final(self).valid(),
            r == old(self)@.arena.next_id(),
            exists|mesh: MeshModel|
                #[trigger] is_lathe(mesh, profile@, slices(steps as int), place) && final(self)@
                    == old(self)@.with_new(
                    fresh_mesh("Lathe"@, old(self)@.serial(), position, mesh),
                ),
    {
        let mesh = Mesh::revolve(profile, steps, place);
        let ghost shape = mesh@;
        assert(is_lathe(shape, profile@, slices(steps as int), place));
        self.add_mesh("Lathe", position, mesh)
    }
}

/// Whether `after` is `before` with each vertex where `shift` moves it.
pub open spec fn is_shifted<S: Fn(Vec3, Vec3) -> Vec3>(
    before: MeshModel,
    after: MeshModel,
    by: Vec3,
    shift: &S,
) -> bool {
    &&& after.faces == before.faces
    &&& after.vertices.len() == before.vertices.len()
    &&& forall|i: int|
        0 <= i < after.vertices.len() ==> (*shift).ensures(
            (before.vertices[i], by),
            #[trigger] after.vertices[i],
        )
}

impl Mesh {
    /// Move each vertex where `shift` says.
    fn shift_by<S: Fn(Vec3, Vec3) -> Vec3>(&mut self, by: Vec3, shift: &S)
        requires
            forall|p: Vec3, by: Vec3| #[trigger] (*shift).requires((p, by)),
        ensures
            is_shifted(old(self)@, final(self)@, by, shift),
    {
        let ghost before = self@;
        let mut i: usize = 0;
        while i < self.vertices.len()
            invariant
                i <= self.vertices.len(),
                self@.faces == before.faces,
                self@.vertices.len() == before.vertices.len(),
                forall|p: Vec3, by: Vec3| #[trigger] (*shift).requires((p, by)),
                forall|j: int|
                    0 <= j < i ==> (*shift).ensures(
                        (before.vertices[j], by),
                        #[trigger] self@.vertices[j],
                    ),
                forall|j: int|
                    i <= j < self@.vertices.len() ==> #[trigger] self@.vertices[j]
                        == before.vertices[j],
            decreases self.vertices.len() - i,
        {
            assert(self@.vertices[i as int] == before.vertices[i as int]);
            let p: Vec3 = shift(self.vertices[i], by);
            self.vertices.set(i, p);
            i = i + 1;
        }
    }
}

/// The smaller of two numbers.
pub open spec fn smaller(a: u32, b: u32) -> int {
    if a < b { a as int } else { b as int }
}

} // verus!
