//! What rigging, posing and skinning promise, told by bones, distances and weights.
use crate::number::{Quat, Real, Vec3};
use crate::overlay::GizmoAxis;
use crate::pick_laws::coordinate;
use crate::rig::{
    bound, counts, deformed, influences, is_spine, posed, skinning, vertex_skinned, Bone,
};
use crate::rig::{is_nearest, measured, skinned, spine_of, weighed};
use crate::spine::{box_around, is_spine_line, longest_axis, made_along};
use vstd::prelude::*;

verus! {

/// The number of an axis: 0 is x, 1 is y, 2 is z.
pub open spec fn axis_number(axis: GizmoAxis) -> int {
    match axis {
        GizmoAxis::X => 0,
        GizmoAxis::Y => 1,
        GizmoAxis::Z => 2,
    }
}

/// No side is longer than that of the longest axis. Of equally long ones the upright one is taken,
/// and then that across.
pub proof fn no_side_is_longer(sides: Vec3, k: int)
    requires
        !sides.x.nan() && !sides.y.nan() && !sides.z.nan(),
        0 <= k < 3,
    ensures
        ({
            let a = axis_number(longest_axis(sides));
            &&& 0 <= a < 3
            &&& !coordinate(sides, a).less(coordinate(sides, k))
            &&& a != 1 ==> coordinate(sides, 1).less(coordinate(sides, a))
            &&& a == 2 ==> coordinate(sides, 0).less(coordinate(sides, a))
        }),
{
}

/// A spine line goes from the least to the greatest place of the box around some points along one
/// axis, the one along which the box is longest, and along the other axes it stays in the middle.
pub proof fn spine_lines_run_lengthwise<S: Fn(Real, Real) -> Real, M: Fn(Real, Real) -> Real>(
    points: Seq<Vec3>,
    side: &S,
    middle: &M,
    line: (Vec3, Vec3),
)
    requires
        is_spine_line(points, side, middle, line),
        forall|a: Real, b: Real, d: Real| #[trigger] (*side).ensures((a, b), d) ==> !d.nan(),
    ensures
        ({
            let b = box_around(points);
            exists|a: int, sides: Vec3| #[trigger]
                lengthwise(b.min, b.max, side, sides, a) && forall|k: int|
                    0 <= k < 3 ==> if k == a {
                        #[trigger] coordinate(line.0, k) == coordinate(b.min, k) && coordinate(
                            line.1,
                            k,
                        ) == coordinate(b.max, k)
                    } else {
                        (*middle).ensures(
                            (coordinate(b.min, k), coordinate(b.max, k)),
                            coordinate(line.0, k),
                        ) && coordinate(line.1, k) == coordinate(line.0, k)
                    }
        }),
{
    let b = box_around(points);
    let (sides, mid) = choose|sides: Vec3, mid: Vec3| #[trigger]
        made_along(b, side, sides) && #[trigger] made_along(b, middle, mid) && line == (
            crate::spine::end_on(longest_axis(sides), b.min, mid),
            crate::spine::end_on(longest_axis(sides), b.max, mid),
        );
    no_side_is_longer(sides, 0);
    no_side_is_longer(sides, 1);
    no_side_is_longer(sides, 2);
    let a = axis_number(longest_axis(sides));
    assert forall|k: int| 0 <= k < 3 implies (*side).ensures(
        (coordinate(b.min, k), coordinate(b.max, k)),
        #[trigger] coordinate(sides, k),
    ) && !coordinate(sides, a).less(coordinate(sides, k)) by {
        no_side_is_longer(sides, k);
    }
    assert(lengthwise(b.min, b.max, side, sides, a));
}

/// Whether a box is longest along axis `a`, where `sides` are the lengths of its sides.
pub open spec fn lengthwise<S: Fn(Real, Real) -> Real>(
    min: Vec3,
    max: Vec3,
    side: &S,
    sides: Vec3,
    a: int,
) -> bool {
    &&& 0 <= a < 3
    &&& forall|k: int|
        0 <= k < 3 ==> (*side).ensures(
            (coordinate(min, k), coordinate(max, k)),
            #[trigger] coordinate(sides, k),
        ) && !coordinate(sides, a).less(coordinate(sides, k))
}

/// The bones of a spine hang together: where `along` always gives the same answer, each begins where
/// the one before it ends, and that one is its parent. The first has none. They begin at the start
/// of the line, and end at the end of as many parts as there are bones.
pub proof fn spines_hang_together<L: Fn(Vec3, Vec3, usize, usize) -> Vec3>(
    bones: Seq<Bone>,
    n: int,
    line: (Vec3, Vec3),
    along: &L,
)
    requires
        2 <= n <= u32::MAX,
        is_spine(bones, n, line, along),
        forall|p: Vec3, q: Vec3, i: usize, m: usize, x: Vec3, y: Vec3| #[trigger]
            (*along).ensures((p, q, i, m), x) && #[trigger] (*along).ensures((p, q, i, m), y) ==> x
                == y,
    ensures
        bones.len() == n,
        bones[0].parent is None,
        (*along).ensures((line.0, line.1, 0, n as usize), bones[0].head),
        (*along).ensures((line.0, line.1, n as usize, n as usize), bones[n - 1].tail),
        forall|i: int|
            0 < i < n ==> (#[trigger] bones[i]).head == bones[i - 1].tail && bones[i].parent == Some(
                (i - 1) as usize,
            ),
{
    assert forall|i: int| 0 < i < n implies (#[trigger] bones[i]).head == bones[i - 1].tail
        && bones[i].parent == Some((i - 1) as usize) by {
        let before = bones[i - 1];
        assert((*along).ensures((line.0, line.1, i as usize, n as usize), before.tail));
        assert((*along).ensures((line.0, line.1, i as usize, n as usize), bones[i].head));
    }
    assert(bones[0].parent is None);
    assert((*along).ensures((line.0, line.1, n as usize, n as usize), bones[n - 1].tail));
}

/// A bone without a parent is posed by its own transform, and one with a parent by that of its
/// parent followed by its own, which is told by its head, the head of its parent and its pose. What
/// deforms a mesh is made of its posed transform and of that at rest, at its head.
pub proof fn children_follow_their_parents<
    T,
    F: Fn(Vec3) -> T,
    L: Fn(Vec3, Option<Vec3>, Quat) -> T,
    C: Fn(T, T) -> T,
    B: Fn(T, T) -> T,
>(bones: Seq<Bone>, place: F, local: L, compose: C, bind: B, made: Seq<T>)
    requires
        skinning(bones, place, local, compose, bind, made),
    ensures
        exists|rest: Seq<T>, own: Seq<T>, out: Seq<T>| #[trigger]
            follows(bones, place, local, compose, bind, made, rest, own, out),
{
    let (rest, own, out) = choose|rest: Seq<T>, locals: Seq<T>, out: Seq<T>| #[trigger]
        bound(bones, place, local, compose, bind, rest, locals, out, made);
    assert(posed(bones, local, compose, own, out));
    assert forall|i: int| 0 <= i < bones.len() implies place.ensures(
        ((#[trigger] bones[i]).head,),
        rest[i],
    ) && bind.ensures((out[i], rest[i]), made[i]) && match bones[i].parent {
        None => local.ensures((bones[i].head, None, bones[i].pose), own[i]) && out[i] == own[i],
        Some(p) => local.ensures(
            (bones[i].head, Some(bones[p as int].head), bones[i].pose),
            own[i],
        ) && compose.ensures((out[p as int], own[i]), out[i]),
    } by {
        assert(rest[i] == rest[i] && own[i] == own[i] && out[i] == out[i] && made[i] == made[i]);
    }
    assert(follows(bones, place, local, compose, bind, made, rest, own, out));
}

/// Whether the posed transforms `out` of bones are made of their own and those of their parents, and
/// `made` of those and the transforms at rest.
pub open spec fn follows<
    T,
    F: Fn(Vec3) -> T,
    L: Fn(Vec3, Option<Vec3>, Quat) -> T,
    C: Fn(T, T) -> T,
    B: Fn(T, T) -> T,
>(
    bones: Seq<Bone>,
    place: F,
    local: L,
    compose: C,
    bind: B,
    made: Seq<T>,
    rest: Seq<T>,
    own: Seq<T>,
    out: Seq<T>,
) -> bool {
    &&& made.len() == bones.len()
    &&& rest.len() == bones.len()
    &&& own.len() == bones.len()
    &&& out.len() == bones.len()
    &&& forall|i: int|
        0 <= i < bones.len() ==> place.ensures(((#[trigger] bones[i]).head,), rest[i])
            && bind.ensures((out[i], rest[i]), made[i]) && match bones[i].parent {
            None => local.ensures((bones[i].head, None, bones[i].pose), own[i]) && out[i]
                == own[i],
            Some(p) => local.ensures(
                (bones[i].head, Some(bones[p as int].head), bones[i].pose),
                own[i],
            ) && compose.ensures((out[p as int], own[i]), out[i]),
        }
}

/// A vertex is bound to the bone nearest to it and, where there are more, to the nearest of the
/// others, with weights made from those two distances in that order. It is bound to no third.
pub proof fn vertices_are_bound_to_the_nearest<
    D: Fn(Vec3, Vec3, Vec3) -> Real,
    W: Fn(Real, Real) -> (Real, Real),
>(
    bones: Seq<Bone>,
    p: Vec3,
    distance: D,
    weigh: W,
    indices: Seq<u32>,
    weights: Seq<Real>,
)
    requires
        bones.len() <= u32::MAX,
        vertex_skinned(bones, p, distance, weigh, indices, weights),
    ensures
        indices.len() == 4 && weights.len() == 4,
        weights[2] == (Real { bits: 0 }) && weights[3] == (Real { bits: 0 }),
        bones.len() == 1 ==> indices[0] == 0 && weights[0] == (Real { bits: 0x3f80_0000 })
            && weights[1] == (Real { bits: 0 }),
        bones.len() > 1 ==> exists|dists: Seq<Real>| #[trigger]
            nearest_two(bones, p, distance, dists, indices[0], indices[1]) && weigh.ensures(
                (dists[indices[0] as int], dists[indices[1] as int]),
                (weights[0], weights[1]),
            ),
{
    let dists = choose|dists: Seq<Real>| #[trigger]
        measured(bones, p, distance, dists) && skinned(dists, weigh, indices, weights);
    if dists.len() != 1 {
        let (i, j) = choose|i: int, j: int| #[trigger]
            weighed(dists, weigh, i, j, indices, weights);
        assert(indices[0] == i && indices[1] == j);
        assert forall|k: int| 0 <= k < dists.len() implies distance.ensures(
            (p, bones[k].head, bones[k].tail),
            #[trigger] dists[k],
        ) && !dists[k].less(dists[i]) && (k != i ==> !dists[k].less(dists[j])) by {}
        assert(nearest_two(bones, p, distance, dists, indices[0], indices[1]));
    }
}

/// Whether `dists` are the distances of a point from the bones, bone `a` is nearest to it, and bone
/// `b` nearest of the others.
pub open spec fn nearest_two<D: Fn(Vec3, Vec3, Vec3) -> Real>(
    bones: Seq<Bone>,
    p: Vec3,
    distance: D,
    dists: Seq<Real>,
    a: u32,
    b: u32,
) -> bool {
    &&& dists.len() == bones.len()
    &&& a < bones.len() && b < bones.len() && a != b
    &&& forall|i: int|
        0 <= i < dists.len() ==> distance.ensures(
            (p, bones[i].head, bones[i].tail),
            #[trigger] dists[i],
        ) && !dists[i].less(dists[a as int]) && (i != a ==> !dists[i].less(dists[b as int]))
}

/// Whether influence `k` of a vertex moves it: its weight is above zero, or no number, and there is
/// such a bone.
pub open spec fn moves(indices: Seq<u32>, weights: Seq<Real>, bones: int, k: int) -> bool {
    0 <= k < 4 && ((Real { bits: 0 }).less(weights[k]) || weights[k].nan()) && indices[k] < bones
}

/// A vertex goes where `blend` puts it by the transforms and weights of all its influences that
/// move it, in their order, and of no others. Where that gives nothing it stays.
pub proof fn vertices_follow_their_bones<T, D: Fn(Vec3, Vec<(T, Real)>) -> Option<Vec3>>(
    before: Vec3,
    indices: Seq<u32>,
    weights: Seq<Real>,
    matrices: Seq<T>,
    blend: &D,
    after: Vec3,
)
    requires
        indices.len() == 4,
        weights.len() == 4,
        deformed(before, indices, weights, matrices, blend, after),
    ensures
        exists|given: Vec<(T, Real)>, out: Option<Vec3>, ks: Seq<int>|
            {
                &&& #[trigger] (*blend).ensures((before, given), out)
                &&& #[trigger] lists_moving(indices, weights, matrices.len() as int, ks)
                &&& given.len() == ks.len()
                &&& forall|i: int|
                    0 <= i < ks.len() ==> #[trigger] given[i] == (
                        matrices[indices[ks[i]] as int],
                        weights[ks[i]],
                    )
                &&& out matches Some(q) ==> after == q
                &&& out is None ==> after == before
            },
{
    let (given, out) = choose|given: Vec<(T, Real)>, out: Option<Vec3>| #[trigger]
        (*blend).ensures((before, given), out) && given@ == influences(
            indices,
            weights,
            matrices,
            4,
        ) && after == match out {
            Some(q) => q,
            None => before,
        };
    let ks = moving_upto(indices, weights, matrices.len() as int, 4);
    lemma_moving(indices, weights, matrices, 4);
    assert(lists_moving(indices, weights, matrices.len() as int, ks));
    assert forall|i: int| 0 <= i < ks.len() implies #[trigger] given[i] == (
        matrices[indices[ks[i]] as int],
        weights[ks[i]],
    ) by {
        assert(given@[i] == influences(indices, weights, matrices, 4)[i]);
    }
}

/// Whether `ks` lists the influences that move a vertex, in order.
pub open spec fn lists_moving(
    indices: Seq<u32>,
    weights: Seq<Real>,
    bones: int,
    ks: Seq<int>,
) -> bool {
    &&& forall|i: int, j: int| 0 <= i < j < ks.len() ==> (#[trigger] ks[i]) < (#[trigger] ks[j])
    &&& forall|i: int| 0 <= i < ks.len() ==> moves(indices, weights, bones, #[trigger] ks[i])
    &&& forall|k: int| #[trigger] moves(indices, weights, bones, k) ==> ks.contains(k)
}

spec fn moving_upto(indices: Seq<u32>, weights: Seq<Real>, bones: int, n: int) -> Seq<int>
    decreases n,
{
    if n <= 0 {
        Seq::empty()
    } else {
        let rest = moving_upto(indices, weights, bones, n - 1);
        if counts(indices, weights, bones, n - 1) {
            rest.push(n - 1)
        } else {
            rest
        }
    }
}

proof fn lemma_moving<T>(indices: Seq<u32>, weights: Seq<Real>, matrices: Seq<T>, n: int)
    requires
        0 <= n <= 4,
        indices.len() == 4,
        weights.len() == 4,
    ensures
        ({
            let bones = matrices.len() as int;
            let ks = moving_upto(indices, weights, bones, n);
            let all = influences(indices, weights, matrices, n);
            &&& all.len() == ks.len()
            &&& forall|i: int|
                0 <= i < ks.len() ==> #[trigger] all[i] == (
                    matrices[indices[ks[i]] as int],
                    weights[ks[i]],
                )
            &&& forall|i: int, j: int|
                0 <= i < j < ks.len() ==> (#[trigger] ks[i]) < (#[trigger] ks[j])
            &&& forall|i: int|
                0 <= i < ks.len() ==> moves(indices, weights, bones, #[trigger] ks[i]) && ks[i] < n
            &&& forall|k: int| #[trigger]
                moves(indices, weights, bones, k) && k < n ==> ks.contains(k)
        }),
    decreases n,
{
    if n > 0 {
        lemma_moving(indices, weights, matrices, n - 1);
        let bones = matrices.len() as int;
        let less = moving_upto(indices, weights, bones, n - 1);
        let ks = moving_upto(indices, weights, bones, n);
        assert(counts(indices, weights, bones, n - 1) <==> moves(indices, weights, bones, n - 1));
        assert forall|k: int| #[trigger] moves(indices, weights, bones, k) && k < n implies ks.contains(
            k,
        ) by {
            if k < n - 1 {
                assert(less.contains(k));
                let i = less.index_of(k);
                assert(ks[i] == k);
            } else {
                assert(ks[ks.len() - 1] == k);
            }
        }
    }
}

/// A spine has as many bones as were asked for, and two at least.
pub proof fn spines_have_two_bones_at_least<
    S: Fn(Real, Real) -> Real,
    M: Fn(Real, Real) -> Real,
    L: Fn(Vec3, Vec3, usize, usize) -> Vec3,
>(vertices: Seq<Vec3>, n_bones: u32, side: &S, middle: &M, along: &L, bones: Seq<Bone>)
    requires
        spine_of(vertices, n_bones, side, middle, along, bones),
    ensures
        bones.len() >= 2,
        n_bones >= 2 ==> bones.len() == n_bones,
        n_bones < 2 ==> bones.len() == 2,
{
}

/// Whether some point has the given coordinate along an axis.
pub open spec fn some_point_at(points: Seq<Vec3>, k: int, c: Real) -> bool {
    exists|i: int| 0 <= i < points.len() && coordinate(#[trigger] points[i], k) == c
}

/// Whether all coordinates of some points are finite.
pub open spec fn all_finite(points: Seq<Vec3>) -> bool {
    forall|i: int|
        0 <= i < points.len() ==> (#[trigger] points[i]).x.finite() && points[i].y.finite()
            && points[i].z.finite()
}

proof fn lemma_point_stays(points: Seq<Vec3>, k: int, c: Real)
    requires
        points.len() > 0,
        some_point_at(points.drop_last(), k, c),
    ensures
        some_point_at(points, k, c),
{
    let i = choose|i: int|
        0 <= i < points.drop_last().len() && coordinate(#[trigger] points.drop_last()[i], k) == c;
    assert(coordinate(points[i], k) == c);
}

/// The box around some points is no larger than it must be: each of its six sides goes through one
/// of them.
pub proof fn boxes_are_tight(points: Seq<Vec3>, k: int)
    requires
        points.len() > 0,
        all_finite(points),
        0 <= k < 3,
    ensures
        some_point_at(points, k, coordinate(box_around(points).min, k)),
        some_point_at(points, k, coordinate(box_around(points).max, k)),
    decreases points.len(),
{
    let rest = points.drop_last();
    let p = points.last();
    let n = points.len() as int;
    let b = box_around(rest);
    reveal_with_fuel(box_around, 2);
    assert(points[n - 1] == p);
    assert(p.x.finite() && p.y.finite() && p.z.finite());
    assert(coordinate(points[n - 1], k) == coordinate(p, k));
    if rest.len() > 0 {
        assert forall|i: int| 0 <= i < rest.len() implies (#[trigger] rest[i]).x.finite()
            && rest[i].y.finite() && rest[i].z.finite() by {
            assert(points[i].x.finite());
        }
        boxes_are_tight(rest, k);
        lemma_point_stays(points, k, coordinate(b.min, k));
        lemma_point_stays(points, k, coordinate(b.max, k));
    }
}

/// Of bones that are equally near the first in the list counts.
pub proof fn the_first_of_equal_bones_counts(dists: Seq<Real>, skip: int, i: int, j: int)
    requires
        is_nearest(dists, skip, i),
        0 <= j < dists.len(),
        j != skip,
    ensures
        0 <= i < dists.len(),
        i != skip,
        !dists[j].less(dists[i]),
        dists[j].same_number(dists[i]) ==> i <= j,
{
}

} // verus!
