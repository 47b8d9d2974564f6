//! What is drawn over and around a scene: boxes, arrows, bones, the checker, squares, spheres and
//! the cube.
use crate::number::{Real, Vec3};
use crate::object::Aabb;
use crate::overlay::{
    arrow_places, bone_lines, box_corner, box_line, checker_pixel, gizmo_axes, grid_corner,
    square_corner, ArrowPlace, GizmoAxis,
};
use crate::pixels::cell;
use crate::solids::{as_far, cube_corner, face_color, painting_axes};
use vstd::prelude::*;

verus! {

/// The corner of a box on a side of each axis: the far side, or the near one.
pub open spec fn corner_at(b: Aabb, x: bool, y: bool, z: bool) -> Vec3 {
    Vec3 {
        x: if x { b.max.x } else { b.min.x },
        y: if y { b.max.y } else { b.min.y },
        z: if z { b.max.z } else { b.min.z },
    }
}

/// Whether a line of a drawing, which has its ends two by two, joins two points.
pub open spec fn line_joins(r: Seq<Vec3>, i: int, p: Vec3, q: Vec3) -> bool {
    (r[2 * i] == p && r[2 * i + 1] == q) || (r[2 * i] == q && r[2 * i + 1] == p)
}

/// Whether a drawing of twelve lines has a line between two points.
pub open spec fn has_line(r: Seq<Vec3>, p: Vec3, q: Vec3) -> bool {
    exists|i: int| 0 <= i < 12 && #[trigger] line_joins(r, i, p, q)
}

/// A box is drawn by its edges: any two corners that lie across from each other along one axis are
/// joined by one of the twelve lines.
pub proof fn boxes_are_drawn_by_their_edges(b: Aabb, r: Seq<Vec3>)
    requires
        r.len() == 24,
        forall|i: int|
            0 <= i < 12 ==> r[2 * i] == box_corner(b, (#[trigger] box_line(i)).0) && r[2 * i + 1]
                == box_corner(b, box_line(i).1),
    ensures
        forall|u: bool, v: bool|
            #![trigger corner_at(b, false, u, v)]
            has_line(r, corner_at(b, false, u, v), corner_at(b, true, u, v)),
        forall|u: bool, v: bool|
            #![trigger corner_at(b, u, false, v)]
            has_line(r, corner_at(b, u, false, v), corner_at(b, u, true, v)),
        forall|u: bool, v: bool|
            #![trigger corner_at(b, u, v, false)]
            has_line(r, corner_at(b, u, v, false), corner_at(b, u, v, true)),
{
    assert forall|i: int| 0 <= i < 12 implies line_joins(
        r,
        i,
        box_corner(b, (#[trigger] box_line(i)).0),
        box_corner(b, box_line(i).1),
    ) by {}
    assert(box_line(0) == (0int, 1int) && box_line(1) == (1int, 2int));
    assert(box_line(2) == (2int, 3int) && box_line(3) == (3int, 0int));
    assert(box_line(4) == (4int, 5int) && box_line(5) == (5int, 6int));
    assert(box_line(6) == (6int, 7int) && box_line(7) == (7int, 4int));
    assert(box_line(8) == (0int, 4int) && box_line(9) == (1int, 5int));
    assert(box_line(10) == (2int, 6int) && box_line(11) == (3int, 7int));
    assert forall|u: bool, v: bool|
        #![trigger corner_at(b, false, u, v)]
        has_line(r, corner_at(b, false, u, v), corner_at(b, true, u, v)) by {
        let i: int = if v { if u { 6 } else { 4 } } else { if u { 2 } else { 0 } };
        assert(line_joins(r, i, corner_at(b, false, u, v), corner_at(b, true, u, v)));
    }
    assert forall|u: bool, v: bool|
        #![trigger corner_at(b, u, false, v)]
        has_line(r, corner_at(b, u, false, v), corner_at(b, u, true, v)) by {
        let i: int = if v { if u { 5 } else { 7 } } else { if u { 1 } else { 3 } };
        assert(line_joins(r, i, corner_at(b, u, false, v), corner_at(b, u, true, v)));
    }
    assert forall|u: bool, v: bool|
        #![trigger corner_at(b, u, v, false)]
        has_line(r, corner_at(b, u, v, false), corner_at(b, u, v, true)) by {
        let i: int = if u { if v { 10 } else { 9 } } else { if v { 11 } else { 8 } };
        assert(line_joins(r, i, corner_at(b, u, v, false), corner_at(b, u, v, true)));
    }
}

/// Whether an arrow has a line from one place to another.
pub open spec fn arrow_has(p: ArrowPlace, q: ArrowPlace) -> bool {
    exists|i: int| 0 <= i < 5 && #[trigger] arrow_line(i) == (p, q)
}

/// The places that line `i` of an arrow joins.
pub open spec fn arrow_line(i: int) -> (ArrowPlace, ArrowPlace) {
    (arrow_places()[2 * i], arrow_places()[2 * i + 1])
}

/// An arrow has five lines: its shaft from the origin to the tip, and one from each of the four
/// corners of its head to the point.
pub proof fn arrows_come_to_a_point(second: bool, far: bool)
    ensures
        arrow_places().len() == 10,
        arrow_has(ArrowPlace::Origin, ArrowPlace::Tip),
        arrow_has(ArrowPlace::Corner { second, far }, ArrowPlace::Point),
{
    assert(arrow_line(0) == (ArrowPlace::Origin, ArrowPlace::Tip));
    let i: int = if second { if far { 4 } else { 3 } } else { if far { 2 } else { 1 } };
    assert(arrow_line(i) == (ArrowPlace::Corner { second, far }, ArrowPlace::Point));
}

/// The coordinates of a step.
pub open spec fn coordinates(step: (int, int, int)) -> Seq<int> {
    seq![step.0, step.1, step.2]
}

/// Each axis has a step of one along a coordinate of its own, in the order of the axes, and no step
/// along the others.
pub proof fn axes_go_along_their_coordinates(i: int, j: int)
    requires
        0 <= i < 3,
        0 <= j < 3,
    ensures
        gizmo_axes().len() == 3,
        gizmo_axes()[0] == GizmoAxis::X && gizmo_axes()[2] == GizmoAxis::Z,
        i != j ==> gizmo_axes()[i] != gizmo_axes()[j],
        coordinates(gizmo_axes()[i].direction())[j] == (if i == j { 1int } else { 0int }),
{
}

/// A bone is drawn as a line from its head to its tail, and a cross at its head: along each axis a
/// line from before the head to past it. The cross belongs to the joint, and the shaft does not.
pub proof fn bones_are_crossed_at_their_heads<X: Fn(Vec3, Vec3, GizmoAxis, bool) -> Vec3>(
    segments: Seq<(Vec3, Vec3)>,
    cross: &X,
    r: Seq<(Vec3, bool)>,
    i: int,
    a: GizmoAxis,
)
    requires
        0 <= i < segments.len(),
        forall|i: int|
            0 <= i < segments.len() ==> bone_lines(
                (#[trigger] segments[i]).0,
                segments[i].1,
                cross,
                r,
                8 * i,
            ),
    ensures
        r[8 * i] == (segments[i].0, false),
        r[8 * i + 1] == (segments[i].1, false),
        exists|k: int|
            0 <= k < 3 && gizmo_axes()[k] == a && {
                &&& (#[trigger] r[8 * i + 2 + 2 * k]).1 && r[8 * i + 2 + 2 * k + 1].1
                &&& (*cross).ensures(
                    (segments[i].0, segments[i].1, a, false),
                    r[8 * i + 2 + 2 * k].0,
                )
                &&& (*cross).ensures(
                    (segments[i].0, segments[i].1, a, true),
                    r[8 * i + 2 + 2 * k + 1].0,
                )
            },
{
    assert(bone_lines(segments[i].0, segments[i].1, cross, r, 8 * i));
    let k: int = match a {
        GizmoAxis::X => 0,
        GizmoAxis::Y => 1,
        GizmoAxis::Z => 2,
    };
    assert(gizmo_axes()[k] == a);
    assert(8 * i + 3 + 2 * k == 8 * i + 2 + 2 * k + 1);
    assert(r[8 * i + 2 + 2 * k].1);
}

/// The fields of the checker are eight by eight and take turns, the light ones beginning: within a
/// field all is alike, and eight further along a row or a column all is the other way. Nothing
/// shines through.
pub proof fn fields_take_turns(x: int, y: int)
    requires
        0 <= x,
        0 <= y,
    ensures
        checker_pixel(x, y) == checker_pixel(8 * (x / 8), 8 * (y / 8)),
        checker_pixel(x + 8, y) != checker_pixel(x, y),
        checker_pixel(x, y + 8) != checker_pixel(x, y),
        checker_pixel(x + 8, y + 8) == checker_pixel(x, y),
        checker_pixel(x, y).a == 255,
        x < 8 && y < 8 ==> checker_pixel(x + 8, y).r < checker_pixel(x, y).r
            && checker_pixel(x + 8, y).g < checker_pixel(x, y).g && checker_pixel(x + 8, y).b
            < checker_pixel(x, y).b,
{
    assert((x + 8) / 8 == x / 8 + 1);
    assert((y + 8) / 8 == y / 8 + 1);
    assert((8 * (x / 8)) / 8 == x / 8);
    assert((8 * (y / 8)) / 8 == y / 8);
}

/// Each of some squares with four corners is drawn as two triangles that share the line from its
/// first corner to its third.
pub proof fn squares_are_halved(n: int, r: Seq<u16>, i: int)
    requires
        0 <= i < n,
        forall|i: int, k: int|
            0 <= i < n && 0 <= k < 6 ==> r[6 * i + k] == #[trigger] square_corner(4 * i, k),
    ensures
        r[6 * i] == 4 * i && r[6 * i + 1] == 4 * i + 1 && r[6 * i + 2] == 4 * i + 2,
        r[6 * i + 3] == 4 * i && r[6 * i + 4] == 4 * i + 2 && r[6 * i + 5] == 4 * i + 3,
{
    assert(r[6 * i + 0] == square_corner(4 * i, 0));
    assert(r[6 * i + 1] == square_corner(4 * i, 1));
    assert(r[6 * i + 2] == square_corner(4 * i, 2));
    assert(r[6 * i + 3] == square_corner(4 * i, 3));
    assert(r[6 * i + 4] == square_corner(4 * i, 4));
    assert(r[6 * i + 5] == square_corner(4 * i, 5));
}

/// A sphere is a grid of corners, row by row, and each of its fields is two triangles: from a
/// corner down the column and then along the row, and from the same corner across the field and
/// then back up.
pub proof fn spheres_are_grids<V, P: Fn(u32, u32) -> V>(
    w: u32,
    h: u32,
    point: &P,
    corners: Seq<V>,
    indices: Seq<u16>,
    x: int,
    y: int,
)
    requires
        0 <= x < w,
        0 <= y < h,
        forall|x: int, y: int|
            0 <= x <= w && 0 <= y <= h ==> (*point).ensures(
                (y as u32, x as u32),
                corners[#[trigger] cell(w + 1, x, y)],
            ),
        forall|x: int, y: int, k: int|
            0 <= x < w && 0 <= y < h && 0 <= k < 6 ==> indices[6 * cell(w as int, x, y) + k]
                == #[trigger] grid_corner(w + 1, x, y, k),
    ensures
        ({
            let t = 6 * (y * w + x);
            let here = y * (w + 1) + x;
            let below = (y + 1) * (w + 1) + x;
            &&& (*point).ensures((y as u32, x as u32), corners[here])
            &&& (*point).ensures(((y + 1) as u32, x as u32), corners[below])
            &&& (*point).ensures(((y + 1) as u32, (x + 1) as u32), corners[below + 1])
            &&& (*point).ensures((y as u32, (x + 1) as u32), corners[here + 1])
            &&& indices[t] == here && indices[t + 1] == below && indices[t + 2] == below + 1
            &&& indices[t + 3] == here && indices[t + 4] == below + 1 && indices[t + 5] == here + 1
        }),
{
    assert((y + 1) * (w + 1) == y * (w + 1) + (w + 1)) by (nonlinear_arith);
    assert(cell(w as int, x, y) == y * w + x);
    assert(cell(w + 1, x, y) == y * (w + 1) + x);
    assert(cell(w + 1, x, y + 1) == (y + 1) * (w + 1) + x);
    assert(cell(w + 1, x + 1, y) == y * (w + 1) + x + 1);
    assert(cell(w + 1, x + 1, y + 1) == (y + 1) * (w + 1) + x + 1);
    let t = 6 * cell(w as int, x, y);
    assert(indices[t + 0] == grid_corner(w + 1, x, y, 0));
    assert(indices[t + 1] == grid_corner(w + 1, x, y, 1));
    assert(indices[t + 2] == grid_corner(w + 1, x, y, 2));
    assert(indices[t + 3] == grid_corner(w + 1, x, y, 3));
    assert(indices[t + 4] == grid_corner(w + 1, x, y, 4));
    assert(indices[t + 5] == grid_corner(w + 1, x, y, 5));
}

/// One half, and its opposite.
pub open spec fn half_way(up: bool) -> Real {
    Real { bits: if up { 0x3f00_0000 } else { 0xbf00_0000 } }
}

/// In how many coordinates two corners differ.
pub open spec fn differences(p: Vec3, q: Vec3) -> int {
    (if p.x == q.x { 0int } else { 1int }) + (if p.y == q.y { 0int } else { 1int }) + (if p.z
        == q.z { 0int } else { 1int })
}

/// Whether a coordinate is one half, up or down.
pub open spec fn is_half(c: Real) -> bool {
    c == half_way(true) || c == half_way(false)
}

/// Each face of the cube lies half a unit away from the middle, on its own side: right, left, top,
/// bottom, front and back. All its corners are corners of the cube, each is a side away from the
/// next, and no two are the same.
pub proof fn cube_faces_lie_on_their_sides(f: int, k: int, j: int)
    requires
        0 <= f < 6,
        0 <= k < 4,
        0 <= j < 4,
    ensures
        f == 0 ==> cube_corner(f, k).x == half_way(true),
        f == 1 ==> cube_corner(f, k).x == half_way(false),
        f == 2 ==> cube_corner(f, k).y == half_way(true),
        f == 3 ==> cube_corner(f, k).y == half_way(false),
        f == 4 ==> cube_corner(f, k).z == half_way(true),
        f == 5 ==> cube_corner(f, k).z == half_way(false),
        is_half(cube_corner(f, k).x) && is_half(cube_corner(f, k).y) && is_half(
            cube_corner(f, k).z,
        ),
        differences(cube_corner(f, k), cube_corner(f, (k + 1) % 4)) == 1,
        k != j ==> cube_corner(f, k) != cube_corner(f, j),
{
}

/// No two faces of the cube have the same color, and all are opaque.
pub proof fn cube_faces_are_told_apart(f: int, g: int)
    requires
        0 <= f < 6,
        0 <= g < 6,
    ensures
        face_color(f).len() == 4,
        face_color(f)[3] == (Real { bits: 0x3f80_0000 }),
        f != g ==> face_color(f) != face_color(g),
{
    assert(f != g ==> face_color(f)[0] != face_color(g)[0] || face_color(f)[1]
        != face_color(g)[1]);
}

/// A painting stands upright where it can: it goes across along the first axis and down along the
/// second, unless the face looks along one of these most; then the third stands in for that one.
/// Of axes that a face looks along as far, the first counts.
pub proof fn paintings_stand_upright(normal: Vec3)
    ensures
        ({
            let (across, down) = painting_axes(normal);
            let first = as_far(normal.x, normal.y) && as_far(normal.x, normal.z);
            let second = as_far(normal.y, normal.x) && as_far(normal.y, normal.z);
            &&& across == GizmoAxis::X <==> !first
            &&& across == GizmoAxis::Z <==> first
            &&& down == GizmoAxis::Y <==> first || !second
            &&& down == GizmoAxis::Z <==> !first && second
        }),
{
}

} // verus!
