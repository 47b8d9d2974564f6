//! The fixed solids that objects are shown as, and how the faces of a mesh lie on a painting.
use crate::number::{Real, Vec3, HALF_BITS, MINUS_HALF_BITS, ONE_BITS, ZERO_BITS};
use crate::overlay::{square_corner, square_indices, GizmoAxis};
use vstd::prelude::*;

verus! {

/// A corner of a solid: where it is, and its color.
#[derive(Clone, Copy, Debug)]
pub struct SolidVertex {
    pub position: Vec3,
    pub color: [Real; 4],
}

/// Whether corner `k` of face `f` of a cube is on the right. The faces are right, left, top,
/// bottom, front and back.
pub open spec fn corner_right(f: int, k: int) -> bool {
    if f < 2 {
        f == 0
    } else if f < 5 {
        k == 1 || k == 2
    } else {
        k == 0 || k == 3
    }
}

/// Whether corner `k` of face `f` of a cube is at the top.
pub open spec fn corner_top(f: int, k: int) -> bool {
    if f == 2 || f == 3 {
        f == 2
    } else {
        k >= 2
    }
}

/// Whether corner `k` of face `f` of a cube is in front.
pub open spec fn corner_front(f: int, k: int) -> bool {
    if f >= 4 {
        f == 4
    } else if f == 0 {
        k == 0 || k == 3
    } else if f == 1 {
        k == 1 || k == 2
    } else if f == 2 {
        k < 2
    } else {
        k >= 2
    }
}

/// One half, up or down.
pub open spec fn half(up: bool) -> Real {
    Real { bits: if up { HALF_BITS } else { MINUS_HALF_BITS } }
}

/// Corner `k` of face `f` of a unit cube around the origin.
pub open spec fn cube_corner(f: int, k: int) -> Vec3 {
    Vec3 {
        x: half(corner_right(f, k)),
        y: half(corner_top(f, k)),
        z: half(corner_front(f, k)),
    }
}

/// The color of face `f` of a cube.
pub open spec fn face_color(f: int) -> Seq<Real> {
    if f == 0 {
        seq![
            Real { bits: 0x3f73_3333 },
            Real { bits: 0x3eae_147b },
            Real { bits: 0x3e99_999a },
            Real { bits: ONE_BITS },
        ]
    } else if f == 1 {
        seq![
            Real { bits: 0x3e80_0000 },
            Real { bits: 0x3f35_c28f },
            Real { bits: 0x3efa_e148 },
            Real { bits: ONE_BITS },
        ]
    } else if f == 2 {
        seq![
            Real { bits: 0x3f63_d70a },
            Real { bits: 0x3f33_3333 },
            Real { bits: 0x3e80_0000 },
            Real { bits: ONE_BITS },
        ]
    } else if f == 3 {
        seq![
            Real { bits: 0x3f0c_cccd },
            Real { bits: 0x3f02_8f5c },
            Real { bits: 0x3f70_a3d7 },
            Real { bits: ONE_BITS },
        ]
    } else if f == 4 {
        seq![
            Real { bits: 0x3e99_999a },
            Real { bits: 0x3f0f_5c29 },
            Real { bits: 0x3f5c_28f6 },
            Real { bits: ONE_BITS },
        ]
    } else {
        seq![
            Real { bits: 0x3f5c_28f6 },
            Real { bits: 0x3ee6_6666 },
            Real { bits: 0x3f28_f5c3 },
            Real { bits: ONE_BITS },
        ]
    }
}

fn half_of(up: bool) -> (r: Real)
    ensures
        r == half(up),
{
    Real { bits: if up { HALF_BITS } else { MINUS_HALF_BITS } }
}

fn corner_of_cube(f: usize, k: usize) -> (r: Vec3)
    requires
        f < 6,
        k < 4,
    ensures
        r == cube_corner(f as int, k as int),
{
    let outer: bool = k == 0 || k == 3;
    let right: bool = if f < 2 { f == 0 } else if f < 5 { !outer } else { outer };
    let top: bool = if f == 2 || f == 3 { f == 2 } else { k >= 2 };
    let front: bool = if f >= 4 {
        f == 4
    } else if f == 0 {
        outer
    } else if f == 1 {
        !outer
    } else if f == 2 {
        k < 2
    } else {
        k >= 2
    };
    Vec3 { x: half_of(right), y: half_of(top), z: half_of(front) }
}

fn color_of_face(f: usize) -> (r: [Real; 4])
    requires
        f < 6,
    ensures
        r@ == face_color(f as int),
{
    let r: [Real; 4] = if f == 0 {
        [
            Real { bits: 0x3f73_3333 },
            Real { bits: 0x3eae_147b },
            Real { bits: 0x3e99_999a },
            Real { bits: ONE_BITS },
        ]
    } else if f == 1 {
        [
            Real { bits: 0x3e80_0000 },
            Real { bits: 0x3f35_c28f },
            Real { bits: 0x3efa_e148 },
            Real { bits: ONE_BITS },
        ]
    } else if f == 2 {
        [
            Real { bits: 0x3f63_d70a },
            Real { bits: 0x3f33_3333 },
            Real { bits: 0x3e80_0000 },
            Real { bits: ONE_BITS },
        ]
    } else if f == 3 {
        [
            Real { bits: 0x3f0c_cccd },
            Real { bits: 0x3f02_8f5c },
            Real { bits: 0x3f70_a3d7 },
            Real { bits: ONE_BITS },
        ]
    } else if f == 4 {
        [
            Real { bits: 0x3e99_999a },
            Real { bits: 0x3f0f_5c29 },
            Real { bits: 0x3f5c_28f6 },
            Real { bits: ONE_BITS },
        ]
    } else {
        [
            Real { bits: 0x3f5c_28f6 },
            Real { bits: 0x3ee6_6666 },
            Real { bits: 0x3f28_f5c3 },
            Real { bits: ONE_BITS },
        ]
    };
    assert(r@ =~= face_color(f as int));
    r
}

/// A unit cube around the origin: the corners of its faces, four for each, and the triangles.
pub fn cube_vertices() -> (r: (Vec<SolidVertex>, Vec<u16>))
    ensures
        r.0.len() == 24,
        forall|j: int|
            0 <= j < 24 ==> (#[trigger] r.0@[j]).position == cube_corner(j / 4, j % 4)
                && r.0@[j].color@ == face_color(j / 4),
        r.1.len() == 36,
        forall|i: int, k: int|
            0 <= i < 6 && 0 <= k < 6 ==> r.1@[6 * i + k] == #[trigger] square_corner(4 * i, k),
{
    let mut out: Vec<SolidVertex> = Vec::new();
    let mut f: usize = 0;
    while f < 6
        invariant
            f <= 6,
            out.len() == 4 * f,
            forall|j: int|
                0 <= j < out.len() ==> (#[trigger] out@[j]).position == cube_corner(j / 4, j % 4)
                    && out@[j].color@ == face_color(j / 4),
        decreases 6 - f,
    {
        let color: [Real; 4] = color_of_face(f);
        out.push(SolidVertex { position: corner_of_cube(f, 0), color });
        out.push(SolidVertex { position: corner_of_cube(f, 1), color });
        out.push(SolidVertex { position: corner_of_cube(f, 2), color });
        out.push(SolidVertex { position: corner_of_cube(f, 3), color });
        f = f + 1;
    }
    (out, square_indices(6))
}

/// A unit square around the origin, and its triangles.
pub fn plane_vertices() -> (r: (Vec<SolidVertex>, Vec<u16>))
    ensures
        r.0.len() == 4,
        forall|k: int|
            0 <= k < 4 ==> (#[trigger] r.0@[k]).position == (Vec3 {
                z: Real { bits: ZERO_BITS },
                ..cube_corner(4, k)
            }) && r.0@[k].color@ == face_color(2),
        r.1.len() == 6,
        forall|k: int| 0 <= k < 6 ==> r.1@[k] == #[trigger] square_corner(0, k),
{
    let mut out: Vec<SolidVertex> = Vec::new();
    let color: [Real; 4] = color_of_face(2);
    let mut k: usize = 0;
    while k < 4
        invariant
            k <= 4,
            out.len() == k,
            color@ == face_color(2),
            forall|j: int|
                0 <= j < k ==> (#[trigger] out@[j]).position == (Vec3 {
                    z: Real { bits: ZERO_BITS },
                    ..cube_corner(4, j)
                }) && out@[j].color@ == face_color(2),
        decreases 4 - k,
    {
        let corner: Vec3 = corner_of_cube(4, k);
        out.push(
            SolidVertex {
                position: Vec3 { x: corner.x, y: corner.y, z: Real { bits: ZERO_BITS } },
                color,
            },
        );
        k = k + 1;
    }
    let indices: Vec<u16> = square_indices(1);
    assert forall|j: int| 0 <= j < 6 implies indices@[j] == #[trigger] square_corner(0, j) by {
        let i: int = 0;
        assert(indices@[6 * i + j] == square_corner(4 * i, j));
    }
    (out, indices)
}

/// A coordinate of a corner in half units: one or minus one.
pub open spec fn sign(up: bool) -> int {
    if up { 1 } else { -1 }
}

/// A step from corner `k` of face `f` to the next, in half units.
pub open spec fn corner_step(f: int, k: int) -> (int, int, int) {
    (
        sign(corner_right(f, k + 1)) - sign(corner_right(f, k)),
        sign(corner_top(f, k + 1)) - sign(corner_top(f, k)),
        sign(corner_front(f, k + 1)) - sign(corner_front(f, k)),
    )
}

/// The way that face `f` of a cube looks: right, left, up, down, to the front and to the back.
pub open spec fn face_direction(f: int) -> (int, int, int) {
    if f == 0 {
        (1, 0, 0)
    } else if f == 1 {
        (-1, 0, 0)
    } else if f == 2 {
        (0, 1, 0)
    } else if f == 3 {
        (0, -1, 0)
    } else if f == 4 {
        (0, 0, 1)
    } else {
        (0, 0, -1)
    }
}

/// What two steps turn about: their cross product.
pub open spec fn turn(a: (int, int, int), b: (int, int, int)) -> (int, int, int) {
    (a.1 * b.2 - a.2 * b.1, a.2 * b.0 - a.0 * b.2, a.0 * b.1 - a.1 * b.0)
}

/// The faces of the cube wind so that they look outward: two steps around a face turn about the
/// way that it looks.
pub proof fn cube_faces_look_outward(f: int)
    requires
        0 <= f < 6,
    ensures
        ({
            let d = face_direction(f);
            turn(corner_step(f, 0), corner_step(f, 1)) == (4 * d.0, 4 * d.1, 4 * d.2)
        }),
{
    if f == 0 {
        assert(corner_step(f, 0) == (0int, 0int, -2));
        assert(corner_step(f, 1) == (0int, 2int, 0int));
        assert(turn((0int, 0int, -2), (0int, 2int, 0int)) == (4int, 0int, 0int)) by (nonlinear_arith);
    } else if f == 1 {
        assert(corner_step(f, 0) == (0int, 0int, 2int));
        assert(corner_step(f, 1) == (0int, 2int, 0int));
        assert(turn((0int, 0int, 2int), (0int, 2int, 0int)) == (-4, 0int, 0int)) by (nonlinear_arith);
    } else if f == 2 {
        assert(corner_step(f, 0) == (2int, 0int, 0int));
        assert(corner_step(f, 1) == (0int, 0int, -2));
        assert(turn((2int, 0int, 0int), (0int, 0int, -2)) == (0int, 4int, 0int)) by (nonlinear_arith);
    } else if f == 3 {
        assert(corner_step(f, 0) == (2int, 0int, 0int));
        assert(corner_step(f, 1) == (0int, 0int, 2int));
        assert(turn((2int, 0int, 0int), (0int, 0int, 2int)) == (0int, -4, 0int)) by (nonlinear_arith);
    } else if f == 4 {
        assert(corner_step(f, 0) == (2int, 0int, 0int));
        assert(corner_step(f, 1) == (0int, 2int, 0int));
        assert(turn((2int, 0int, 0int), (0int, 2int, 0int)) == (0int, 0int, 4int)) by (nonlinear_arith);
    } else {
        assert(corner_step(f, 0) == (-2, 0int, 0int));
        assert(corner_step(f, 1) == (0int, 2int, 0int));
        assert(turn((-2, 0int, 0int), (0int, 2int, 0int)) == (0int, 0int, -4)) by (nonlinear_arith);
    }
}

/// Whether one number is at least as far from zero as another.
pub open spec fn as_far(a: Real, b: Real) -> bool {
    !a.nan() && !b.nan() && a.magnitude() >= b.magnitude()
}

/// Which coordinates of a point lie across and down a painting on a face that looks along
/// `normal`: those that the face looks along least.
pub open spec fn painting_axes(normal: Vec3) -> (GizmoAxis, GizmoAxis) {
    if as_far(normal.x, normal.y) && as_far(normal.x, normal.z) {
        (GizmoAxis::Z, GizmoAxis::Y)
    } else if as_far(normal.y, normal.x) && as_far(normal.y, normal.z) {
        (GizmoAxis::X, GizmoAxis::Z)
    } else {
        (GizmoAxis::X, GizmoAxis::Y)
    }
}

fn is_as_far(a: Real, b: Real) -> (r: bool)
    ensures
        r == as_far(a, b),
{
    !a.is_nan() && !b.is_nan() && a.magnitude_bits() >= b.magnitude_bits()
}

/// Which coordinates of a point lie across and down a painting on a face.
pub fn uv_axes(normal: Vec3) -> (r: (GizmoAxis, GizmoAxis))
    ensures
        r == painting_axes(normal),
{
    if is_as_far(normal.x, normal.y) && is_as_far(normal.x, normal.z) {
        (GizmoAxis::Z, GizmoAxis::Y)
    } else if is_as_far(normal.y, normal.x) && is_as_far(normal.y, normal.z) {
        (GizmoAxis::X, GizmoAxis::Z)
    } else {
        (GizmoAxis::X, GizmoAxis::Y)
    }
}

/// The coordinate of a point along an axis.
pub open spec fn along(p: Vec3, a: GizmoAxis) -> Real {
    match a {
        GizmoAxis::X => p.x,
        GizmoAxis::Y => p.y,
        GizmoAxis::Z => p.z,
    }
}

/// A painting lies along two axes, and the face looks along the third at least as far as along
/// either of the two.
pub proof fn paintings_face_outward(normal: Vec3, third: GizmoAxis)
    requires
        !normal.x.nan() && !normal.y.nan() && !normal.z.nan(),
        third != painting_axes(normal).0,
        third != painting_axes(normal).1,
    ensures
        painting_axes(normal).0 != painting_axes(normal).1,
        as_far(along(normal, third), along(normal, painting_axes(normal).0)),
        as_far(along(normal, third), along(normal, painting_axes(normal).1)),
{
}

} // verus!
