//! What stacks of modifiers, adjustments and passes do, told from their parts.
use crate::compositor::{byte_of, high_first, low_first, pass_words, passes_of, AdjustPass};
use crate::decimate::{grid_cells, grid_side};
use crate::document_shape::is_shifted;
use crate::kinds::{adjustment_defaults, AdjustmentKind, Modifier};
use crate::mesh::MeshModel;
use crate::mesh_shapes::{at_least_two, on_axis, slices};
use crate::modifiers::{
    all_steps, is_bent, is_decimated, is_posed, is_skinned, is_turned, step_taken, steps_of,
    Posing, Step,
};
use crate::number::{Quat, Real, Vec3};
use crate::object::{Object, ObjectModel};
use crate::rig::{Bone, Skin};
use crate::subdivide::VertexRule;
use vstd::prelude::*;

verus! {

/// The steps of two stacks, the one on the other, are those of the first and then those of the
/// second.
pub proof fn stacks_are_taken_in_order(first: Seq<Modifier>, second: Seq<Modifier>)
    ensures
        all_steps(first + second) == all_steps(first) + all_steps(second),
    decreases second.len(),
{
    if second.len() == 0 {
        assert(first + second =~= first);
    } else {
        stacks_are_taken_in_order(first, second.drop_last());
        assert((first + second).drop_last() =~= first + second.drop_last());
    }
}

/// A modifier alone is one step, of its own kind and with its own numbers, but a subdivision is as
/// many as it has levels, up to four. A mirror whose axis is none mirrors along the last.
pub proof fn modifiers_are_taken_as_they_are(modifier: Modifier, k: int)
    ensures
        ({
            let steps = all_steps(seq![modifier]);
            match modifier {
                Modifier::Mirror { axis } => {
                    &&& steps.len() == 1 && steps[0] is Mirror
                    &&& 0 <= steps[0]->axis <= axis && steps[0]->axis <= 2
                    &&& axis <= 2 ==> steps[0]->axis == axis
                    &&& axis > 2 ==> steps[0]->axis == 2
                },
                Modifier::Array { count, offset } => steps == seq![Step::Array { count, offset }],
                Modifier::Subdivide { levels } => {
                    &&& steps.len() <= 4
                    &&& levels <= 4 ==> steps.len() == levels
                    &&& levels > 4 ==> steps.len() == 4
                    &&& 0 <= k < steps.len() ==> steps[k] is Subdivide
                },
                Modifier::Decimate { grid_res } => steps == seq![Step::Decimate { grid_res }],
            }
        }),
{
    let one = seq![modifier];
    assert(one.drop_last() =~= Seq::empty());
    assert(one.last() == modifier);
    reveal_with_fuel(all_steps, 2);
    assert(all_steps(one) =~= steps_of(modifier));
}

/// A decimation never leaves a mesh without faces that had some, and leaves one without faces as
/// it was.
pub proof fn decimation_leaves_faces<
    K: Fn(Vec<Vec3>, usize) -> Vec<usize>,
    M: Fn(Vec<Vec3>) -> Vec3,
>(before: MeshModel, after: MeshModel, grid_res: u32, assign: K, mean: M)
    requires
        is_decimated(before, after, grid_res, assign, mean),
    ensures
        before.faces.len() > 0 ==> after.faces.len() > 0,
        before.faces.len() == 0 || before.vertices.len() == 0 ==> after == before,
{
}

/// A step of a stack does what it is named for. A mirror doubles the vertices and the faces and
/// keeps the ones there were; an array has the vertices once for each copy, and at least once; a
/// subdivision leaves the vertices first in the list and adds one for each face and each edge.
pub proof fn steps_do_as_they_are_named<
    A: Fn(Vec3, Vec3, u32) -> Vec3,
    C: Fn(Vec<Vec3>) -> Vec3,
    E: Fn(Vec3, Vec3, Option<(Vec3, Vec3)>) -> Vec3,
    R: Fn(Vec3, VertexRule) -> Vec3,
    K: Fn(Vec<Vec3>, usize) -> Vec<usize>,
    M: Fn(Vec<Vec3>) -> Vec3,
>(
    before: MeshModel,
    after: MeshModel,
    step: Step,
    shift: A,
    middle: C,
    join: E,
    relax: R,
    assign: K,
    mean: M,
    v: int,
)
    requires
        step_taken(before, after, step, shift, middle, join, relax, assign, mean),
        0 <= v < before.vertices.len(),
    ensures
        step is Mirror ==> after.vertices.len() == 2 * before.vertices.len() && after.faces.len()
            == 2 * before.faces.len() && after.vertices[v] == before.vertices[v],
        step matches Step::Array { count, offset } ==> ({
            let n = if count == 0 { 1 } else { count as int };
            &&& after.vertices.len() == n * before.vertices.len()
            &&& after.faces.len() == n * before.faces.len()
            &&& forall|c: int|
                0 <= c < n ==> #[trigger] shift.ensures(
                    (before.vertices[v], offset, c as u32),
                    after.vertices[c * before.vertices.len() + v],
                )
        }),
        step is Subdivide ==> after.vertices.len() >= before.vertices.len() + before.faces.len(),
{
}

/// A skeleton is at rest exactly when each bone has the turn that turns nothing: no part about any
/// axis, and one.
pub proof fn rest_is_no_turn(pose: Quat)
    ensures
        pose.x.bits == 0 && pose.y.bits == 0 && pose.z.bits == 0 && pose.w.bits == 0x3f80_0000
            ==> !is_turned(pose),
        (Real { bits: 0 }).less(pose.x) || pose.x.less(Real { bits: 0 }) ==> is_turned(pose),
        (Real { bits: 0 }).less(pose.y) || pose.y.less(Real { bits: 0 }) ==> is_turned(pose),
        (Real { bits: 0 }).less(pose.z) || pose.z.less(Real { bits: 0 }) ==> is_turned(pose),
        (Real { bits: 0x3f80_0000 }).less(pose.w) || pose.w.less(Real { bits: 0x3f80_0000 })
            ==> is_turned(pose),
        pose.x.nan() || pose.y.nan() || pose.z.nan() || pose.w.nan() ==> is_turned(pose),
{
}

/// What an adjustment is set to, in the order of its settings.
pub open spec fn settings(kind: AdjustmentKind) -> Seq<Real> {
    match kind {
        AdjustmentKind::BrightnessContrast { brightness, contrast } => seq![brightness, contrast],
        AdjustmentKind::HueSaturation { hue, saturation, lightness } => seq![
            hue,
            saturation,
            lightness,
        ],
        AdjustmentKind::Levels { black_point, gamma, white_point } => seq![
            black_point,
            gamma,
            white_point,
        ],
        AdjustmentKind::Exposure { stops } => seq![stops],
        AdjustmentKind::Vibrance { amount } => seq![amount],
        AdjustmentKind::WhiteBalance { temperature, tint } => seq![temperature, tint],
        AdjustmentKind::Posterize { levels } => seq![levels],
        AdjustmentKind::Threshold { level } => seq![level],
        AdjustmentKind::Invert => Seq::empty(),
        AdjustmentKind::BoxBlur { radius } => seq![radius],
        AdjustmentKind::Sharpen { amount } => seq![amount],
        AdjustmentKind::EdgeDetect => Seq::empty(),
        AdjustmentKind::GaussianBlur { radius } => seq![radius],
    }
}

/// Setting `k` of some, and zero past the last.
pub open spec fn setting(list: Seq<Real>, k: int) -> Real {
    if k < list.len() {
        list[k]
    } else {
        Real { bits: 0 }
    }
}

/// Whether two adjustments are of the same kind.
pub open spec fn same_kind(a: AdjustmentKind, b: AdjustmentKind) -> bool {
    match a {
        AdjustmentKind::BrightnessContrast { .. } => b is BrightnessContrast,
        AdjustmentKind::HueSaturation { .. } => b is HueSaturation,
        AdjustmentKind::Levels { .. } => b is Levels,
        AdjustmentKind::Exposure { .. } => b is Exposure,
        AdjustmentKind::Vibrance { .. } => b is Vibrance,
        AdjustmentKind::WhiteBalance { .. } => b is WhiteBalance,
        AdjustmentKind::Posterize { .. } => b is Posterize,
        AdjustmentKind::Threshold { .. } => b is Threshold,
        AdjustmentKind::Invert => b is Invert,
        AdjustmentKind::BoxBlur { .. } => b is BoxBlur,
        AdjustmentKind::Sharpen { .. } => b is Sharpen,
        AdjustmentKind::EdgeDetect => b is EdgeDetect,
        AdjustmentKind::GaussianBlur { .. } => b is GaussianBlur,
    }
}

/// An adjustment is known to the shader by its place in the picker, and told its settings in their
/// order. It takes one pass, but the Gaussian blur takes two, the first along the rows and the
/// second along the columns, as wide.
pub proof fn adjustments_tell_their_settings(kind: AdjustmentKind)
    ensures
        ({
            let passes = passes_of(kind);
            &&& passes.len() == (if kind is GaussianBlur { 2int } else { 1int })
            &&& passes[0].mode < adjustment_defaults().len()
            &&& same_kind(kind, adjustment_defaults()[passes[0].mode as int])
            &&& passes[0].p0 == setting(settings(kind), 0)
            &&& kind !is GaussianBlur ==> passes[0].p1 == setting(settings(kind), 1)
                && passes[0].p2 == setting(settings(kind), 2)
            &&& kind is GaussianBlur ==> {
                &&& passes[1].mode == passes[0].mode && passes[1].p0 == passes[0].p0
                &&& passes[0].p1.bits == 0x3f80_0000 && passes[0].p2.bits == 0
                &&& passes[1].p1.bits == 0 && passes[1].p2.bits == 0x3f80_0000
            }
        }),
{
}

/// The picker offers each kind of adjustment once.
pub proof fn adjustments_are_offered_once(kind: AdjustmentKind, i: int, j: int)
    requires
        0 <= i < adjustment_defaults().len(),
        0 <= j < adjustment_defaults().len(),
    ensures
        adjustment_defaults().len() == 13,
        adjustment_defaults().contains(adjustment_defaults()[passes_of(kind)[0].mode as int]),
        same_kind(adjustment_defaults()[i], adjustment_defaults()[j]) ==> i == j,
{
}

/// What four bytes say, the first of them the lowest.
pub open spec fn word_of(a: u8, b: u8, c: u8, d: u8) -> int {
    a + 0x100 * b + 0x1_0000 * c + 0x100_0000 * d
}

/// The bytes of some words give the words back, four bytes for each: read from the lowest up, or
/// from the highest down.
pub proof fn words_come_back(words: Seq<u32>, i: int)
    requires
        0 <= i < words.len(),
    ensures
        low_first(words).len() == 4 * words.len(),
        high_first(words).len() == 4 * words.len(),
        word_of(
            low_first(words)[4 * i],
            low_first(words)[4 * i + 1],
            low_first(words)[4 * i + 2],
            low_first(words)[4 * i + 3],
        ) == words[i],
        word_of(
            high_first(words)[4 * i + 3],
            high_first(words)[4 * i + 2],
            high_first(words)[4 * i + 1],
            high_first(words)[4 * i],
        ) == words[i],
{
    let w = words[i];
    assert(word_of(byte_of(w, 0), byte_of(w, 1), byte_of(w, 2), byte_of(w, 3)) == w) by {
        assert(w % 0x100 < 0x100 && w / 0x100 % 0x100 < 0x100 && w / 0x1_0000 % 0x100 < 0x100);
        assert(w / 0x100_0000 < 0x100);
    }
    assert((4 * i) / 4 == i && (4 * i) % 4 == 0);
    assert((4 * i + 1) / 4 == i && (4 * i + 1) % 4 == 1);
    assert((4 * i + 2) / 4 == i && (4 * i + 2) % 4 == 2);
    assert((4 * i + 3) / 4 == i && (4 * i + 3) % 4 == 3);
}

/// A pass is told as its number and then its settings, in their order.
pub proof fn passes_are_told_in_order(pass: AdjustPass)
    ensures
        pass_words(pass).len() == 4,
        pass_words(pass)[0] == pass.mode,
        (Real { bits: pass_words(pass)[1] }) == pass.p0,
        (Real { bits: pass_words(pass)[2] }) == pass.p1,
        (Real { bits: pass_words(pass)[3] }) == pass.p2,
{
}

/// What is asked for too small is made as small as there is a shape: a grid has two cells along
/// each side at least, a relief two points, and a lathe three slices.
pub proof fn shapes_have_their_least_size(n: u32)
    ensures
        grid_side(n) == (if n >= 2 { n as int } else { 2int }),
        grid_cells(n) == grid_side(n) * grid_side(n) * grid_side(n),
        at_least_two(n as int) == (if n >= 2 { n as int } else { 2int }),
        slices(n as int) == (if n >= 3 { n as int } else { 3int }),
{
}

/// A profile meets the axis where it is nearer to it than one hundred-thousandth, on either side.
pub proof fn profiles_meet_the_axis(r: Real)
    ensures
        on_axis(r) <==> (r.bits < 0x3727_c5ac || 0x8000_0000 <= r.bits < 0xb727_c5ac),
{
}

/// An object is bent by its pose exactly where it has a skeleton and a skin and some bone is not at
/// rest.
pub proof fn poses_need_a_skeleton_and_a_skin(object: ObjectModel, i: int)
    ensures
        object.skeleton is None || object.skin is None ==> !is_posed(object),
        object.skeleton is Some && object.skin is Some && 0 <= i < object.skeleton->0.len()
            && is_turned(object.skeleton->0[i].pose) ==> is_posed(object),
        object.skeleton is Some && (forall|b: int|
            0 <= b < object.skeleton->0.len() ==> !is_turned(
                (#[trigger] object.skeleton->0[b]).pose,
            )) ==> !is_posed(object),
{
    if object.skeleton is Some && object.skin is Some && 0 <= i < object.skeleton->0.len() {
        assert(object.skeleton->0[i].pose == object.skeleton->0[i].pose);
    }
}

/// A skeleton moves the vertices of a mesh and not its faces, and a skin that is not of the mesh,
/// vertex for vertex, leaves it as it is. An object that is not posed shows its mesh as it is.
pub proof fn skins_bend_only_their_mesh<
    T,
    F: Fn(Vec3) -> T,
    L: Fn(Vec3, Option<Vec3>, Quat) -> T,
    C: Fn(T, T) -> T,
    B: Fn(T, T) -> T,
    D: Fn(Vec3, Vec<(T, Real)>) -> Option<Vec3>,
>(
    base: MeshModel,
    bones: Seq<Bone>,
    skin: Skin,
    by: &Posing<F, L, C, B, D>,
    mesh: MeshModel,
    object: Object,
)
    ensures
        is_skinned::<T, F, L, C, B, D>(base, bones, skin, by, mesh) ==> mesh.faces == base.faces
            && mesh.vertices.len() == base.vertices.len(),
        is_skinned::<T, F, L, C, B, D>(base, bones, skin, by, mesh) && (skin.indices.len()
            != base.vertices.len() || skin.weights.len() != base.vertices.len()) ==> mesh == base,
        is_bent::<T, F, L, C, B, D>(object, by, mesh) && !is_posed(object@) ==> mesh
            == object@.mesh->0,
        is_bent::<T, F, L, C, B, D>(object, by, mesh) && is_posed(object@) ==> is_skinned::<
            T,
            F,
            L,
            C,
            B,
            D,
        >(object@.mesh->0, (object.skeleton->0).bones@, object.skin->0, by, mesh),
{
}

/// Moving a mesh to its place moves each of its vertices by as much, and keeps its faces.
pub proof fn placed_meshes_keep_their_faces<S: Fn(Vec3, Vec3) -> Vec3>(
    before: MeshModel,
    after: MeshModel,
    by: Vec3,
    shift: &S,
    i: int,
)
    requires
        is_shifted(before, after, by, shift),
    ensures
        after.faces == before.faces,
        after.vertices.len() == before.vertices.len(),
        0 <= i < before.vertices.len() ==> (*shift).ensures(
            (before.vertices[i], by),
            after.vertices[i],
        ),
{
}

} // verus!
