//! The line that a spine runs along: through the middle of a mesh, along its longest side.
use crate::number::{Real, Vec3};
use crate::object::Aabb;
use crate::overlay::GizmoAxis;
use vstd::prelude::*;

verus! {

/// The bit pattern of the greatest finite number.
pub const GREATEST_BITS: u32 = 0x7f7f_ffff;

/// The bit pattern of the least finite number.
pub const LEAST_BITS: u32 = 0xff7f_ffff;

/// The same number along each axis.
pub open spec fn even(bits: u32) -> Vec3 {
    Vec3 { x: Real { bits }, y: Real { bits }, z: Real { bits } }
}

/// The first of two numbers where it is less than the second, and else the second.
pub open spec fn lower(a: Real, b: Real) -> Real {
    if a.less(b) {
        a
    } else {
        b
    }
}

/// The first of two numbers where it is greater than the second, and else the second.
pub open spec fn upper(a: Real, b: Real) -> Real {
    if b.less(a) {
        a
    } else {
        b
    }
}

fn lower_of(a: Real, b: Real) -> (r: Real)
    ensures
        r == lower(a, b),
{
    if a.lt(b) {
        a
    } else {
        b
    }
}

fn upper_of(a: Real, b: Real) -> (r: Real)
    ensures
        r == upper(a, b),
{
    if b.lt(a) {
        a
    } else {
        b
    }
}

/// The box around some points. A box around none is turned inside out.
pub open spec fn box_around(points: Seq<Vec3>) -> Aabb
    decreases points.len(),
{
    if points.len() == 0 {
        Aabb { min: even(GREATEST_BITS), max: even(LEAST_BITS) }
    } else {
        let b = box_around(points.drop_last());
        let p = points.last();
        Aabb {
            min: Vec3 {
                x: lower(b.min.x, p.x),
                y: lower(b.min.y, p.y),
                z: lower(b.min.z, p.z),
            },
            max: Vec3 {
                x: upper(b.max.x, p.x),
                y: upper(b.max.y, p.y),
                z: upper(b.max.z, p.z),
            },
        }
    }
}

/// The box around some points.
pub fn bounds(points: &Vec<Vec3>) -> (r: Aabb)
    ensures
        r == box_around(points@),
{
    let most: Real = Real { bits: GREATEST_BITS };
    let least: Real = Real { bits: LEAST_BITS };
    let mut min: Vec3 = Vec3 { x: most, y: most, z: most };
    let mut max: Vec3 = Vec3 { x: least, y: least, z: least };
    let mut i: usize = 0;
    assert(points@.take(0) =~= Seq::empty());
    while i < points.len()
        invariant
            i <= points.len(),
            (Aabb { min, max }) == box_around(points@.take(i as int)),
        decreases points.len() - i,
    {
        proof {
            assert(points@.take(i + 1).drop_last() =~= points@.take(i as int));
        }
        let p: Vec3 = points[i];
        min = Vec3 {
            x: lower_of(min.x, p.x),
            y: lower_of(min.y, p.y),
            z: lower_of(min.z, p.z),
        };
        max = Vec3 {
            x: upper_of(max.x, p.x),
            y: upper_of(max.y, p.y),
            z: upper_of(max.z, p.z),
        };
        i = i + 1;
    }
    assert(points@.take(i as int) =~= points@);
    Aabb { min, max }
}

/// The axis of the longest side; of equally long ones `y` comes first, and then `x`.
pub open spec fn longest_axis(sides: Vec3) -> GizmoAxis {
    if sides.x.at_most(sides.y) && sides.z.at_most(sides.y) {
        GizmoAxis::Y
    } else if sides.z.at_most(sides.x) {
        GizmoAxis::X
    } else {
        GizmoAxis::Z
    }
}

/// The axis of the longest side.
pub fn spine_axis(sides: Vec3) -> (r: GizmoAxis)
    ensures
        r == longest_axis(sides),
{
    if sides.x.le(sides.y) && sides.z.le(sides.y) {
        GizmoAxis::Y
    } else if sides.z.le(sides.x) {
        GizmoAxis::X
    } else {
        GizmoAxis::Z
    }
}

/// A point in the middle of a box but for one axis, where it is at `at`.
pub open spec fn end_on(axis: GizmoAxis, at: Vec3, mid: Vec3) -> Vec3 {
    match axis {
        GizmoAxis::X => Vec3 { x: at.x, ..mid },
        GizmoAxis::Y => Vec3 { y: at.y, ..mid },
        GizmoAxis::Z => Vec3 { z: at.z, ..mid },
    }
}

/// Whether `made` is what `f` makes of the least and the greatest coordinate along each axis.
pub open spec fn made_along<F: Fn(Real, Real) -> Real>(b: Aabb, f: &F, made: Vec3) -> bool {
    &&& (*f).ensures((b.min.x, b.max.x), made.x)
    &&& (*f).ensures((b.min.y, b.max.y), made.y)
    &&& (*f).ensures((b.min.z, b.max.z), made.z)
}

/// Whether a line runs through the middle of the box around some points, along its longest side.
/// `side` is how long a side is from its ends, and `middle` the middle of it.
pub open spec fn is_spine_line<S: Fn(Real, Real) -> Real, M: Fn(Real, Real) -> Real>(
    points: Seq<Vec3>,
    side: &S,
    middle: &M,
    line: (Vec3, Vec3),
) -> bool {
    let b = box_around(points);
    exists|sides: Vec3, mid: Vec3| #[trigger]
        made_along(b, side, sides) && #[trigger] made_along(b, middle, mid) && line == (
            end_on(longest_axis(sides), b.min, mid),
            end_on(longest_axis(sides), b.max, mid),
        )
}

fn end_at(axis: GizmoAxis, at: Vec3, mid: Vec3) -> (r: Vec3)
    ensures
        r == end_on(axis, at, mid),
{
    match axis {
        GizmoAxis::X => Vec3 { x: at.x, y: mid.y, z: mid.z },
        GizmoAxis::Y => Vec3 { x: mid.x, y: at.y, z: mid.z },
        GizmoAxis::Z => Vec3 { x: mid.x, y: mid.y, z: at.z },
    }
}

/// The line through the middle of the box around some points, along its longest side.
pub fn spine_line<S: Fn(Real, Real) -> Real, M: Fn(Real, Real) -> Real>(
    points: &Vec<Vec3>,
    side: &S,
    middle: &M,
) -> (r: (Vec3, Vec3))
    requires
        forall|a: Real, b: Real| #[trigger] (*side).requires((a, b)),
        forall|a: Real, b: Real| #[trigger] (*middle).requires((a, b)),
    ensures
        is_spine_line(points@, side, middle, r),
{
    let b: Aabb = bounds(points);
    let sides: Vec3 = Vec3 {
        x: side(b.min.x, b.max.x),
        y: side(b.min.y, b.max.y),
        z: side(b.min.z, b.max.z),
    };
    let mid: Vec3 = Vec3 {
        x: middle(b.min.x, b.max.x),
        y: middle(b.min.y, b.max.y),
        z: middle(b.min.z, b.max.z),
    };
    assert(made_along(b, side, sides));
    assert(made_along(b, middle, mid));
    let axis: GizmoAxis = spine_axis(sides);
    (end_at(axis, b.min, mid), end_at(axis, b.max, mid))
}

/// Whether all coordinates of some points are numbers.
pub open spec fn placed(points: Seq<Vec3>) -> bool {
    forall|i: int|
        0 <= i < points.len() ==> !(#[trigger] points[i]).x.nan() && !points[i].y.nan()
            && !points[i].z.nan()
}

/// No point lies outside the box around all: no coordinate is less than the least or greater than
/// the greatest.
pub proof fn boxes_hold_their_points(points: Seq<Vec3>, i: int)
    requires
        0 <= i < points.len(),
        placed(points),
    ensures
        ({
            let b = box_around(points);
            let p = points[i];
            &&& !p.x.less(b.min.x) && !p.y.less(b.min.y) && !p.z.less(b.min.z)
            &&& !b.max.x.less(p.x) && !b.max.y.less(p.y) && !b.max.z.less(p.z)
        }),
    decreases points.len(),
{
    let front = points.drop_last();
    assert(placed(front)) by {
        assert forall|k: int| 0 <= k < front.len() implies !(#[trigger] front[k]).x.nan()
            && !front[k].y.nan() && !front[k].z.nan() by {
            assert(!points[k].x.nan() && !points[k].y.nan() && !points[k].z.nan());
        }
    }
    lemma_box_is_numbers(front);
    assert(!points[points.len() - 1].x.nan());
    if i < points.len() - 1 {
        boxes_hold_their_points(points.drop_last(), i);
        assert(points.drop_last()[i] == points[i]);
    }
}

proof fn lemma_box_is_numbers(points: Seq<Vec3>)
    requires
        placed(points),
    ensures
        ({
            let b = box_around(points);
            &&& !b.min.x.nan() && !b.min.y.nan() && !b.min.z.nan()
            &&& !b.max.x.nan() && !b.max.y.nan() && !b.max.z.nan()
        }),
    decreases points.len(),
{
    if points.len() > 0 {
        let front = points.drop_last();
        assert(placed(front)) by {
            assert forall|k: int| 0 <= k < front.len() implies !(#[trigger] front[k]).x.nan()
                && !front[k].y.nan() && !front[k].z.nan() by {
                assert(!points[k].x.nan() && !points[k].y.nan() && !points[k].z.nan());
            }
        }
        lemma_box_is_numbers(front);
        assert(!points[points.len() - 1].x.nan());
    }
}

} // verus!
