//! Objects: the envelope that everything in a scene shares.
use crate::kinds::{
    adjustments_alike, modifiers_alike, AdjustmentKind, BlendMode, Compositing, Modifier,
    ObjectKind,
};
use crate::mesh::{Mesh, MeshModel};
use crate::number::{Quat, Real, Vec3, HALF_BITS, MINUS_HALF_BITS, ONE_BITS, ZERO_BITS};
use crate::rig::{quat_identity, unturned, Bone, Skeleton, Skin};
use vstd::prelude::*;

verus! {

/// The bit pattern of two hundredths, half the thickness of a flat object.
pub const THIN_BITS: u32 = 0x3ca3_d70a;

/// The bit pattern of minus two hundredths.
pub const MINUS_THIN_BITS: u32 = 0xbca3_d70a;

/// Translation, rotation and scale.
#[derive(Clone, Copy, Debug, PartialEq, Eq, Structural)]
pub struct Trs {
    pub translation: Vec3,
    pub rotation: Quat,
    pub scale: Vec3,
}

/// The same number along each axis.
pub open spec fn splat(bits: u32) -> Vec3 {
    Vec3 { x: Real { bits }, y: Real { bits }, z: Real { bits } }
}

/// The same number along each axis.
pub fn splat_of(bits: u32) -> (r: Vec3)
    ensures
        r == splat(bits),
{
    Vec3 { x: Real { bits }, y: Real { bits }, z: Real { bits } }
}

/// The transform that changes nothing.
pub open spec fn unmoved() -> Trs {
    Trs { translation: splat(ZERO_BITS), rotation: unturned(), scale: splat(ONE_BITS) }
}

impl Default for Trs {
    /// The transform that changes nothing.
    fn default() -> (r: Trs)
        ensures
            r == unmoved(),
    {
        Trs {
            translation: splat_of(ZERO_BITS),
            rotation: quat_identity(),
            scale: splat_of(ONE_BITS),
        }
    }
}

impl Trs {
    /// Whether two transforms are written alike in a document.
    pub open spec fn alike(self, other: Trs) -> bool {
        self.translation.alike(other.translation) && self.rotation.alike(other.rotation)
            && self.scale.alike(other.scale)
    }

    /// Whether two transforms are written alike in a document.
    pub fn is_alike(self, other: Trs) -> (r: bool)
        ensures
            r == self.alike(other),
    {
        self.translation.is_alike(other.translation) && self.rotation.is_alike(other.rotation)
            && self.scale.is_alike(other.scale)
    }
}

/// A box along the axes, in the space of an object.
#[derive(Clone, Copy, Debug, PartialEq, Eq, Structural)]
pub struct Aabb {
    pub min: Vec3,
    pub max: Vec3,
}

impl Aabb {
    /// The unit cube around the origin.
    pub open spec fn unit_box() -> Aabb {
        Aabb { min: splat(MINUS_HALF_BITS), max: splat(HALF_BITS) }
    }

    /// A unit square around the origin, two hundredths thick to each side.
    pub open spec fn flat_box() -> Aabb {
        Aabb {
            min: Vec3 { z: Real { bits: MINUS_THIN_BITS }, ..splat(MINUS_HALF_BITS) },
            max: Vec3 { z: Real { bits: THIN_BITS }, ..splat(HALF_BITS) },
        }
    }

    /// The unit cube around the origin.
    pub fn unit() -> (r: Aabb)
        ensures
            r == Self::unit_box(),
    {
        Aabb { min: splat_of(MINUS_HALF_BITS), max: splat_of(HALF_BITS) }
    }

    /// A unit square around the origin, two hundredths thick to each side.
    pub fn flat() -> (r: Aabb)
        ensures
            r == Self::flat_box(),
    {
        let low: Vec3 = splat_of(MINUS_HALF_BITS);
        let high: Vec3 = splat_of(HALF_BITS);
        Aabb {
            min: Vec3 { x: low.x, y: low.y, z: Real { bits: MINUS_THIN_BITS } },
            max: Vec3 { x: high.x, y: high.y, z: Real { bits: THIN_BITS } },
        }
    }

    /// Whether two boxes are written alike in a document.
    pub open spec fn alike(self, other: Aabb) -> bool {
        self.min.alike(other.min) && self.max.alike(other.max)
    }

    /// Whether two boxes are written alike in a document.
    pub fn is_alike(self, other: Aabb) -> (r: bool)
        ensures
            r == self.alike(other),
    {
        self.min.is_alike(other.min) && self.max.is_alike(other.max)
    }
}

/// The name of an object that stays valid across edits and saves. A name whose object is gone
/// finds nothing, even when another object takes the slot.
#[derive(Clone, Copy, Debug, PartialEq, Eq, Hash, Structural)]
pub struct ObjId {
    pub slot: u32,
    pub generation: u32,
}

/// Anything that can be placed in a scene.
#[derive(Debug)]
pub struct Object {
    pub id: ObjId,
    pub name: String,
    pub kind: ObjectKind,
    pub transform: Trs,
    pub color: [Real; 4],
    pub visibility: bool,
    pub lock: bool,
    pub opacity: Real,
    pub compositing: Compositing,
    pub blend_mode: BlendMode,
    pub local_aabb: Aabb,
    /// The geometry of a mesh object.
    pub mesh: Option<Mesh>,
    /// The modifiers that the mesh is shown through.
    pub modifiers: Vec<Modifier>,
    /// What an adjustment layer does.
    pub adjustment: Option<AdjustmentKind>,
    /// The skeleton that the mesh is bound to.
    pub skeleton: Option<Skeleton>,
    /// How the mesh is bound to the skeleton.
    pub skin: Option<Skin>,
}

/// What a bone holds.
pub ghost struct BoneModel {
    pub name: Seq<char>,
    pub head: Vec3,
    pub tail: Vec3,
    pub parent: Option<usize>,
    pub pose: Quat,
}

impl View for Bone {
    type V = BoneModel;

    open spec fn view(&self) -> BoneModel {
        BoneModel {
            name: self.name@,
            head: self.head,
            tail: self.tail,
            parent: self.parent,
            pose: self.pose,
        }
    }
}

impl View for Skeleton {
    type V = Seq<BoneModel>;

    open spec fn view(&self) -> Seq<BoneModel> {
        Seq::new(self.bones@.len(), |i: int| self.bones@[i]@)
    }
}

/// What a skin holds.
#[verifier::ext_equal]
pub ghost struct SkinModel {
    pub indices: Seq<[u32; 4]>,
    pub weights: Seq<[Real; 4]>,
}

impl View for Skin {
    type V = SkinModel;

    open spec fn view(&self) -> SkinModel {
        SkinModel { indices: self.indices@, weights: self.weights@ }
    }
}

/// What an object holds.
#[verifier::ext_equal]
pub ghost struct ObjectModel {
    pub id: ObjId,
    pub name: Seq<char>,
    pub kind: ObjectKind,
    pub transform: Trs,
    pub color: Seq<Real>,
    pub visibility: bool,
    pub lock: bool,
    pub opacity: Real,
    pub compositing: Compositing,
    pub blend_mode: BlendMode,
    pub local_aabb: Aabb,
    pub mesh: Option<MeshModel>,
    pub modifiers: Seq<Modifier>,
    pub adjustment: Option<AdjustmentKind>,
    pub skeleton: Option<Seq<BoneModel>>,
    pub skin: Option<SkinModel>,
}

/// What an optional mesh holds.
pub open spec fn mesh_model(mesh: Option<Mesh>) -> Option<MeshModel> {
    match mesh {
        Some(m) => Some(m@),
        None => None,
    }
}

/// What an optional skeleton holds.
pub open spec fn skeleton_model(skeleton: Option<Skeleton>) -> Option<Seq<BoneModel>> {
    match skeleton {
        Some(s) => Some(s@),
        None => None,
    }
}

/// What an optional skin holds.
pub open spec fn skin_model(skin: Option<Skin>) -> Option<SkinModel> {
    match skin {
        Some(s) => Some(s@),
        None => None,
    }
}

impl View for Object {
    type V = ObjectModel;

    open spec fn view(&self) -> ObjectModel {
        ObjectModel {
            id: self.id,
            name: self.name@,
            kind: self.kind,
            transform: self.transform,
            color: self.color@,
            visibility: self.visibility,
            lock: self.lock,
            opacity: self.opacity,
            compositing: self.compositing,
            blend_mode: self.blend_mode,
            local_aabb: self.local_aabb,
            mesh: mesh_model(self.mesh),
            modifiers: self.modifiers@,
            adjustment: self.adjustment,
            skeleton: skeleton_model(self.skeleton),
            skin: skin_model(self.skin),
        }
    }
}

/// What an optional object holds.
pub open spec fn object_model(object: Option<Object>) -> Option<ObjectModel> {
    match object {
        Some(o) => Some(o@),
        None => None,
    }
}

/// Whether two lists of points are written alike.
pub open spec fn points_alike(a: Seq<Vec3>, b: Seq<Vec3>) -> bool {
    a.len() == b.len() && forall|i: int| 0 <= i < a.len() ==> (#[trigger] a[i]).alike(b[i])
}

/// Whether two meshes are written alike.
pub open spec fn meshes_alike(a: MeshModel, b: MeshModel) -> bool {
    points_alike(a.vertices, b.vertices) && a.faces == b.faces
}

/// Whether two lists of numbers are written alike.
pub open spec fn numbers_alike(a: Seq<Real>, b: Seq<Real>) -> bool {
    a.len() == b.len() && forall|i: int| 0 <= i < a.len() ==> (#[trigger] a[i]).alike(b[i])
}

/// Whether two bones are written alike.
pub open spec fn bones_alike(a: BoneModel, b: BoneModel) -> bool {
    a.name == b.name && a.head.alike(b.head) && a.tail.alike(b.tail) && a.parent == b.parent
        && a.pose.alike(b.pose)
}

/// Whether two skeletons are written alike.
pub open spec fn skeletons_alike(a: Seq<BoneModel>, b: Seq<BoneModel>) -> bool {
    a.len() == b.len() && forall|i: int| 0 <= i < a.len() ==> bones_alike(#[trigger] a[i], b[i])
}

/// Whether two skins are written alike.
pub open spec fn skins_alike(a: SkinModel, b: SkinModel) -> bool {
    &&& a.indices.len() == b.indices.len()
    &&& forall|i: int| 0 <= i < a.indices.len() ==> (#[trigger] a.indices[i])@ == b.indices[i]@
    &&& a.weights.len() == b.weights.len()
    &&& forall|i: int|
        0 <= i < a.weights.len() ==> numbers_alike((#[trigger] a.weights[i])@, b.weights[i]@)
}

/// Whether two lists of modifiers are written alike.
pub open spec fn stacks_alike(a: Seq<Modifier>, b: Seq<Modifier>) -> bool {
    a.len() == b.len() && forall|i: int|
        0 <= i < a.len() ==> modifiers_alike(#[trigger] a[i], b[i])
}

/// Whether two objects are written alike in a document: every field is the same, except that
/// numbers that are not finite are not told apart.
pub open spec fn alike(a: ObjectModel, b: ObjectModel) -> bool {
    &&& a.id == b.id
    &&& a.name == b.name
    &&& a.kind == b.kind
    &&& a.transform.alike(b.transform)
    &&& numbers_alike(a.color, b.color)
    &&& a.visibility == b.visibility
    &&& a.lock == b.lock
    &&& a.opacity.alike(b.opacity)
    &&& a.compositing == b.compositing
    &&& a.blend_mode == b.blend_mode
    &&& a.local_aabb.alike(b.local_aabb)
    &&& match (a.mesh, b.mesh) {
        (Some(m), Some(n)) => meshes_alike(m, n),
        (None, None) => true,
        _ => false,
    }
    &&& stacks_alike(a.modifiers, b.modifiers)
    &&& match (a.adjustment, b.adjustment) {
        (Some(m), Some(n)) => adjustments_alike(m, n),
        (None, None) => true,
        _ => false,
    }
    &&& match (a.skeleton, b.skeleton) {
        (Some(m), Some(n)) => skeletons_alike(m, n),
        (None, None) => true,
        _ => false,
    }
    &&& match (a.skin, b.skin) {
        (Some(m), Some(n)) => skins_alike(m, n),
        (None, None) => true,
        _ => false,
    }
}

/// An object is written like itself.
pub proof fn alike_to_itself(a: ObjectModel)
    ensures
        alike(a, a),
{
}

fn same_indices(a: &Vec<u32>, b: &Vec<u32>) -> (r: bool)
    ensures
        r == (a@ == b@),
{
    if a.len() != b.len() {
        return false;
    }
    let mut i: usize = 0;
    while i < a.len()
        invariant
            i <= a.len(),
            a.len() == b.len(),
            forall|j: int| 0 <= j < i ==> #[trigger] a[j] == b[j],
        decreases a.len() - i,
    {
        if a[i] != b[i] {
            assert(a@[i as int] != b@[i as int]);
            return false;
        }
        i = i + 1;
    }
    assert(a@ =~= b@);
    true
}

fn same_points(a: &Vec<Vec3>, b: &Vec<Vec3>) -> (r: bool)
    ensures
        r == points_alike(a@, b@),
{
    if a.len() != b.len() {
        return false;
    }
    let mut i: usize = 0;
    while i < a.len()
        invariant
            i <= a.len(),
            a.len() == b.len(),
            forall|j: int| 0 <= j < i ==> (#[trigger] a[j]).alike(b[j]),
        decreases a.len() - i,
    {
        if !a[i].is_alike(b[i]) {
            assert(!a@[i as int].alike(b@[i as int]));
            return false;
        }
        i = i + 1;
    }
    true
}

fn same_mesh(a: &Mesh, b: &Mesh) -> (r: bool)
    ensures
        r == meshes_alike(a@, b@),
{
    assert(a@.faces.len() == a.faces.len() && b@.faces.len() == b.faces.len());
    if !same_points(&a.vertices, &b.vertices) || a.faces.len() != b.faces.len() {
        return false;
    }
    let mut i: usize = 0;
    while i < a.faces.len()
        invariant
            i <= a.faces.len(),
            a.faces.len() == b.faces.len(),
            forall|j: int| 0 <= j < i ==> (#[trigger] a.faces[j])@ == b.faces[j]@,
        decreases a.faces.len() - i,
    {
        if !same_indices(&a.faces[i].indices, &b.faces[i].indices) {
            assert(a@.faces[i as int] != b@.faces[i as int]);
            return false;
        }
        i = i + 1;
    }
    assert(a@.faces =~= b@.faces);
    true
}

fn same_numbers(a: &[Real; 4], b: &[Real; 4]) -> (r: bool)
    ensures
        r == numbers_alike(a@, b@),
{
    let r: bool = a[0].is_alike(b[0]) && a[1].is_alike(b[1]) && a[2].is_alike(b[2])
        && a[3].is_alike(b[3]);
    proof {
        if r {
            assert forall|i: int| 0 <= i < a@.len() implies (#[trigger] a@[i]).alike(b@[i]) by {
                assert(i == 0 || i == 1 || i == 2 || i == 3);
            }
        } else {
            assert(!a@[0].alike(b@[0]) || !a@[1].alike(b@[1]) || !a@[2].alike(b@[2])
                || !a@[3].alike(b@[3]));
        }
    }
    r
}

fn same_modifiers(a: &Vec<Modifier>, b: &Vec<Modifier>) -> (r: bool)
    ensures
        r == stacks_alike(a@, b@),
{
    if a.len() != b.len() {
        return false;
    }
    let mut i: usize = 0;
    while i < a.len()
        invariant
            i <= a.len(),
            a.len() == b.len(),
            forall|j: int| 0 <= j < i ==> modifiers_alike(#[trigger] a[j], b[j]),
        decreases a.len() - i,
    {
        if !a[i].is_alike(&b[i]) {
            assert(!modifiers_alike(a@[i as int], b@[i as int]));
            return false;
        }
        i = i + 1;
    }
    true
}

fn same_parent(a: Option<usize>, b: Option<usize>) -> (r: bool)
    ensures
        r == (a == b),
{
    match (a, b) {
        (Some(x), Some(y)) => x == y,
        (None, None) => true,
        _ => false,
    }
}

fn same_skeleton(a: &Skeleton, b: &Skeleton) -> (r: bool)
    ensures
        r == skeletons_alike(a@, b@),
{
    if a.bones.len() != b.bones.len() {
        return false;
    }
    let mut i: usize = 0;
    while i < a.bones.len()
        invariant
            i <= a.bones.len(),
            a.bones.len() == b.bones.len(),
            forall|j: int| 0 <= j < i ==> bones_alike(#[trigger] a@[j], b@[j]),
        decreases a.bones.len() - i,
    {
        let x = &a.bones[i];
        let y = &b.bones[i];
        assert(a@[i as int] == x@ && b@[i as int] == y@);
        if !(x.name == y.name && x.head.is_alike(y.head) && x.tail.is_alike(y.tail) && same_parent(
            x.parent,
            y.parent,
        ) && x.pose.is_alike(y.pose)) {
            assert(!bones_alike(a@[i as int], b@[i as int]));
            return false;
        }
        i = i + 1;
    }
    true
}

fn same_skin(a: &Skin, b: &Skin) -> (r: bool)
    ensures
        r == skins_alike(a@, b@),
{
    if a.indices.len() != b.indices.len() || a.weights.len() != b.weights.len() {
        return false;
    }
    let mut i: usize = 0;
    while i < a.indices.len()
        invariant
            i <= a.indices.len(),
            a.indices.len() == b.indices.len(),
            forall|j: int| 0 <= j < i ==> (#[trigger] a@.indices[j])@ == b@.indices[j]@,
        decreases a.indices.len() - i,
    {
        let x: [u32; 4] = a.indices[i];
        let y: [u32; 4] = b.indices[i];
        if !(x[0] == y[0] && x[1] == y[1] && x[2] == y[2] && x[3] == y[3]) {
            assert(a@.indices[i as int]@ != b@.indices[i as int]@) by {
                assert(x@[0] != y@[0] || x@[1] != y@[1] || x@[2] != y@[2] || x@[3] != y@[3]);
            }
            return false;
        }
        assert(x@ =~= y@);
        i = i + 1;
    }
    let mut i: usize = 0;
    while i < a.weights.len()
        invariant
            i <= a.weights.len(),
            a.weights.len() == b.weights.len(),
            forall|j: int| 0 <= j < i ==> numbers_alike((#[trigger] a@.weights[j])@, b@.weights[j]@),
        decreases a.weights.len() - i,
    {
        if !same_numbers(&a.weights[i], &b.weights[i]) {
            assert(!numbers_alike(a@.weights[i as int]@, b@.weights[i as int]@));
            return false;
        }
        i = i + 1;
    }
    true
}

/// Whether two objects are written alike in a document, so that going from one to the other
/// is no edit.
pub fn objects_equal(a: &Object, b: &Object) -> (r: bool)
    ensures
        r == alike(a@, b@),
{
    let meshes: bool = match (&a.mesh, &b.mesh) {
        (Some(m), Some(n)) => same_mesh(m, n),
        (None, None) => true,
        _ => false,
    };
    let adjustments: bool = match (&a.adjustment, &b.adjustment) {
        (Some(m), Some(n)) => m.is_alike(n),
        (None, None) => true,
        _ => false,
    };
    let skeletons: bool = match (&a.skeleton, &b.skeleton) {
        (Some(m), Some(n)) => same_skeleton(m, n),
        (None, None) => true,
        _ => false,
    };
    let skins: bool = match (&a.skin, &b.skin) {
        (Some(m), Some(n)) => same_skin(m, n),
        (None, None) => true,
        _ => false,
    };
    a.id == b.id && a.name == b.name && a.kind == b.kind && a.transform.is_alike(b.transform)
        && same_numbers(&a.color, &b.color) && a.visibility == b.visibility && a.lock == b.lock
        && a.opacity.is_alike(b.opacity) && a.compositing == b.compositing && a.blend_mode
        == b.blend_mode && a.local_aabb.is_alike(b.local_aabb) && meshes && same_modifiers(
        &a.modifiers,
        &b.modifiers,
    ) && adjustments && skeletons && skins
}

impl Skin {
    /// A copy of the skin.
    pub fn copy(&self) -> (r: Skin)
        ensures
            r@ == self@,
    {
        let mut indices: Vec<[u32; 4]> = Vec::new();
        let mut i: usize = 0;
        while i < self.indices.len()
            invariant
                i <= self.indices.len(),
                indices@ == self.indices@.take(i as int),
            decreases self.indices.len() - i,
        {
            indices.push(self.indices[i]);
            assert(indices@ =~= self.indices@.take(i + 1));
            i = i + 1;
        }
        assert(self.indices@.take(i as int) =~= self.indices@);
        let mut weights: Vec<[Real; 4]> = Vec::new();
        let mut i: usize = 0;
        while i < self.weights.len()
            invariant
                i <= self.weights.len(),
                weights@ == self.weights@.take(i as int),
            decreases self.weights.len() - i,
        {
            weights.push(self.weights[i]);
            assert(weights@ =~= self.weights@.take(i + 1));
            i = i + 1;
        }
        assert(self.weights@.take(i as int) =~= self.weights@);
        Skin { indices, weights }
    }
}

fn copy_modifiers(list: &Vec<Modifier>) -> (r: Vec<Modifier>)
    ensures
        r@ == list@,
{
    let mut out: Vec<Modifier> = Vec::new();
    let mut i: usize = 0;
    while i < list.len()
        invariant
            i <= list.len(),
            out@ == list@.take(i as int),
        decreases list.len() - i,
    {
        out.push(list[i]);
        assert(out@ =~= list@.take(i + 1));
        i = i + 1;
    }
    assert(list@.take(i as int) =~= list@);
    out
}

impl Object {
    /// A copy of the object.
    pub fn copy(&self) -> (r: Object)
        ensures
            r@ == self@,
    {
        let mesh: Option<Mesh> = match &self.mesh {
            Some(m) => Some(m.copy()),
            None => None,
        };
        let skeleton: Option<Skeleton> = match &self.skeleton {
            Some(s) => Some(s.copy()),
            None => None,
        };
        let skin: Option<Skin> = match &self.skin {
            Some(s) => Some(s.copy()),
            None => None,
        };
        let r = Object {
            id: self.id,
            name: self.name.clone(),
            kind: self.kind,
            transform: self.transform,
            color: self.color,
            visibility: self.visibility,
            lock: self.lock,
            opacity: self.opacity,
            compositing: self.compositing,
            blend_mode: self.blend_mode,
            local_aabb: self.local_aabb,
            mesh,
            modifiers: copy_modifiers(&self.modifiers),
            adjustment: self.adjustment,
            skeleton,
            skin,
        };
        proof {
            if self.skeleton is Some {
                assert(r.skeleton->0@ =~= self.skeleton->0@);
            }
        }
        r
    }
}

} // verus!
